//! Unix paths as sequences of bytes, or of characters, and their components.
use vstd::prelude::*;

use crate::text;

verus! {

// ---------------------------------------------------------------------------
// What the standard library provides
// ---------------------------------------------------------------------------

/// The text that stands for a sequence of bytes that is not UTF-8.
pub uninterp spec fn repaired_text(bytes: Seq<u8>) -> Seq<char>;

/// The text of a sequence of bytes: its UTF-8 decoding, or a repaired text where it has none.
pub open spec fn lossy_text(bytes: Seq<u8>) -> Seq<char> {
    if vstd::utf8::valid_utf8(bytes) {
        vstd::utf8::decode_utf8(bytes)
    } else {
        repaired_text(bytes)
    }
}

/// `String::from_utf8_lossy`: UTF-8 is decoded; what stands in for bytes that are not UTF-8 is
/// left to the library, and named.
#[verifier::external_body]
pub(crate) fn bytes_to_text(bytes: &[u8]) -> (r: String)
    ensures
        vstd::utf8::valid_utf8(bytes@) ==> r@ == vstd::utf8::decode_utf8(bytes@),
        !vstd::utf8::valid_utf8(bytes@) ==> r@ == repaired_text(bytes@),
{
    String::from_utf8_lossy(bytes).into_owned()
}

/// `String::from_utf8`: the text of a sequence of bytes, exactly where it is UTF-8.
#[verifier::external_body]
pub(crate) fn utf8_to_text(bytes: Vec<u8>) -> (r: Option<String>)
    ensures
        r is Some <==> vstd::utf8::valid_utf8(bytes@),
        r matches Some(s) ==> s@ == vstd::utf8::decode_utf8(bytes@),
{
    String::from_utf8(bytes).ok()
}

// ---------------------------------------------------------------------------
// Components
// ---------------------------------------------------------------------------

/// What a path is a sequence of.
pub trait PathUnit: Copy {
    /// The separator.
    spec fn slash(self) -> bool;

    /// A full stop.
    spec fn dot(self) -> bool;

    fn is_slash(&self) -> (r: bool)
        ensures
            r == self.slash(),
    ;

    fn is_dot(&self) -> (r: bool)
        ensures
            r == self.dot(),
    ;

    fn same(&self, other: &Self) -> (r: bool)
        ensures
            r == (*self == *other),
    ;
}

impl PathUnit for u8 {
    open spec fn slash(self) -> bool {
        self == 47
    }

    open spec fn dot(self) -> bool {
        self == 46
    }

    fn is_slash(&self) -> (r: bool) {
        *self == 47
    }

    fn is_dot(&self) -> (r: bool) {
        *self == 46
    }

    fn same(&self, other: &Self) -> (r: bool) {
        *self == *other
    }
}

impl PathUnit for char {
    open spec fn slash(self) -> bool {
        self == '/'
    }

    open spec fn dot(self) -> bool {
        self == '.'
    }

    fn is_slash(&self) -> (r: bool) {
        *self == '/'
    }

    fn is_dot(&self) -> (r: bool) {
        *self == '.'
    }

    fn same(&self, other: &Self) -> (r: bool) {
        *self == *other
    }
}

/// A component of a path, as a mathematical value.
pub enum Component<T> {
    Root,
    Current,
    Parent,
    Normal(Seq<T>),
}

/// The number of units before the first separator.
pub open spec fn part_len<T: PathUnit>(s: Seq<T>) -> nat
    decreases s.len(),
{
    if s.len() == 0 || s[0].slash() {
        0
    } else {
        1 + part_len(s.drop_first())
    }
}

/// The component that the units between two separators stand for. Nothing stands for none, and
/// so does a single dot, except at the start of a relative path.
pub open spec fn part_component<T: PathUnit>(part: Seq<T>, first: bool) -> Seq<Component<T>> {
    if part.len() == 0 {
        Seq::empty()
    } else if part.len() == 1 && part[0].dot() {
        if first {
            seq![Component::Current]
        } else {
            Seq::empty()
        }
    } else if part.len() == 2 && part[0].dot() && part[1].dot() {
        seq![Component::Parent]
    } else {
        seq![Component::Normal(part)]
    }
}

/// The components of a path behind its root.
pub open spec fn relative_components<T: PathUnit>(s: Seq<T>, first: bool) -> Seq<Component<T>>
    decreases s.len(),
{
    let n = part_len(s) as int;
    if s.len() == 0 {
        Seq::empty()
    } else if 0 <= n < s.len() {
        part_component(s.take(n), first) + relative_components(s.skip(n + 1), false)
    } else {
        part_component(s, first)
    }
}

/// A path that starts with a separator.
pub open spec fn is_absolute<T: PathUnit>(s: Seq<T>) -> bool {
    s.len() > 0 && s[0].slash()
}

/// The components of a path.
pub open spec fn components<T: PathUnit>(s: Seq<T>) -> Seq<Component<T>> {
    if is_absolute(s) {
        seq![Component::Root] + relative_components(s.drop_first(), false)
    } else {
        relative_components(s, true)
    }
}

/// The components without the last one, unless there is none to drop.
pub open spec fn parent<T>(path: Seq<Component<T>>) -> Option<Seq<Component<T>>> {
    if path.len() > 0 && !(path.last() is Root) {
        Some(path.drop_last())
    } else {
        None
    }
}

/// The last component, if it is a name.
pub open spec fn file_name<T>(path: Seq<Component<T>>) -> Option<Seq<T>> {
    if path.len() > 0 {
        match path.last() {
            Component::Normal(name) => Some(name),
            _ => None,
        }
    } else {
        None
    }
}

/// The name of the directory that a path lies in, if it has one.
pub open spec fn parent_name<T>(path: Seq<Component<T>>) -> Option<Seq<T>> {
    match parent(path) {
        Some(p) => file_name(p),
        None => None,
    }
}

/// The index of the last dot of a name, or -1.
pub open spec fn last_dot<T: PathUnit>(name: Seq<T>) -> int
    decreases name.len(),
{
    if name.len() == 0 {
        -1
    } else if name.last().dot() {
        name.len() - 1
    } else {
        last_dot(name.drop_last())
    }
}

/// What follows the last dot of a name, unless the name starts with that dot or has none.
pub open spec fn extension<T: PathUnit>(name: Seq<T>) -> Option<Seq<T>> {
    if last_dot(name) > 0 {
        Some(name.skip(last_dot(name) + 1))
    } else {
        None
    }
}

/// A name without its extension.
pub open spec fn stem<T: PathUnit>(name: Seq<T>) -> Seq<T> {
    if last_dot(name) > 0 {
        name.take(last_dot(name))
    } else {
        name
    }
}

/// A component of a path.
pub enum Part<T> {
    Root,
    Current,
    Parent,
    Normal(Vec<T>),
}

impl<T> View for Part<T> {
    type V = Component<T>;

    open spec fn view(&self) -> Component<T> {
        match self {
            Part::Root => Component::Root,
            Part::Current => Component::Current,
            Part::Parent => Component::Parent,
            Part::Normal(name) => Component::Normal(name@),
        }
    }
}

/// The components that a vector of parts holds.
pub open spec fn parts_view<T>(parts: Seq<Part<T>>) -> Seq<Component<T>> {
    parts.map_values(|p: Part<T>| p@)
}

/// The units before the first separator are no separators.
pub proof fn lemma_part_len<T: PathUnit>(s: Seq<T>)
    ensures
        part_len(s) <= s.len(),
        forall|j: int| 0 <= j < part_len(s) ==> !(#[trigger] s[j]).slash(),
        part_len(s) < s.len() ==> s[part_len(s) as int].slash(),
    decreases s.len(),
{
    if s.len() > 0 && !s[0].slash() {
        let rest = s.drop_first();
        lemma_part_len(rest);
        assert forall|j: int| 0 <= j < part_len(s) implies !(#[trigger] s[j]).slash() by {
            if j > 0 {
                assert(rest[j - 1] == s[j]);
            }
        }
    }
}

/// The number of units before the first separator is the only such number.
pub proof fn lemma_part_len_unique<T: PathUnit>(s: Seq<T>, n: int)
    requires
        0 <= n <= s.len(),
        forall|j: int| 0 <= j < n ==> !(#[trigger] s[j]).slash(),
        n < s.len() ==> s[n].slash(),
    ensures
        part_len(s) == n,
{
    lemma_part_len(s);
    let k = part_len(s) as int;
    if k < n {
        assert(!s[k].slash());
    }
    if n < k {
        assert(!s[n].slash());
    }
}

/// Every name among the components is a proper file name: not empty, without a separator, and
/// neither one dot nor two.
pub open spec fn is_proper_name<T: PathUnit>(name: Seq<T>) -> bool {
    &&& name.len() > 0
    &&& forall|i: int| 0 <= i < name.len() ==> !(#[trigger] name[i]).slash()
    &&& !(name.len() == 1 && name[0].dot())
    &&& !(name.len() == 2 && name[0].dot() && name[1].dot())
}

/// The names among the components behind the root are proper file names.
proof fn lemma_relative_names<T: PathUnit>(s: Seq<T>, first: bool)
    ensures
        forall|i: int|
            0 <= i < relative_components(s, first).len() ==> (
            #[trigger] relative_components(s, first)[i] matches Component::Normal(name)
                ==> is_proper_name(name)),
        forall|i: int|
            0 <= i < relative_components(s, first).len() ==> !(
            #[trigger] relative_components(s, first)[i] is Root),
    decreases s.len(),
{
    lemma_part_len(s);
    let n = part_len(s) as int;
    if s.len() > 0 {
        if n < s.len() {
            let head = part_component(s.take(n), first);
            let tail = relative_components(s.skip(n + 1), false);
            lemma_relative_names(s.skip(n + 1), false);
            assert forall|i: int| 0 <= i < (head + tail).len() implies (
            #[trigger] (head + tail)[i] matches Component::Normal(name) ==> is_proper_name(name))
                && !((head + tail)[i] is Root) by {
                if i >= head.len() {
                    assert((head + tail)[i] == tail[i - head.len()]);
                }
            }
        } else {
            assert(s.take(n) == s);
        }
    }
}

/// Every name among the components of a path is a proper file name.
pub proof fn lemma_names_are_proper<T: PathUnit>(s: Seq<T>)
    ensures
        forall|i: int|
            0 <= i < components(s).len() ==> (
            #[trigger] components(s)[i] matches Component::Normal(name) ==> is_proper_name(name)),
        file_name(components(s)) matches Some(name) ==> is_proper_name(name),
{
    if is_absolute(s) {
        let tail = relative_components(s.drop_first(), false);
        lemma_relative_names(s.drop_first(), false);
        assert forall|i: int| 0 <= i < components(s).len() implies (
        #[trigger] components(s)[i] matches Component::Normal(name) ==> is_proper_name(name)) by {
            if i > 0 {
                assert(components(s)[i] == tail[i - 1]);
            }
        }
    } else {
        lemma_relative_names(s, true);
    }
}

/// A copy of a part of a sequence.
pub(crate) fn copy_range<T: PathUnit>(s: &[T], from: usize, to: usize) -> (r: Vec<T>)
    requires
        from <= to <= s@.len(),
    ensures
        r@ == s@.subrange(from as int, to as int),
{
    let mut r: Vec<T> = Vec::new();
    let mut i: usize = from;
    while i < to
        invariant
            from <= i <= to <= s@.len(),
            r@ == s@.subrange(from as int, i as int),
        decreases to - i,
    {
        let unit = s[i];
        r.push(unit);
        i = i + 1;
        assert(s@.subrange(from as int, i as int) == s@.subrange(from as int, i - 1).push(
            s@[i - 1],
        ));
    }
    r
}

/// The components of a path.
pub(crate) fn split_path<T: PathUnit>(s: &[T]) -> (r: Vec<Part<T>>)
    ensures
        parts_view(r@) == components(s@),
{
    let mut r: Vec<Part<T>> = Vec::new();
    let mut first: bool = true;
    let mut at: usize = 0;
    if s.len() > 0 && s[0].is_slash() {
        r.push(Part::Root);
        first = false;
        at = 1;
        proof {
            assert(s@.skip(1) == s@.drop_first());
            assert(parts_view(r@) =~= seq![Component::Root]);
        }
    } else {
        proof {
            assert(s@.skip(0) == s@);
            assert(parts_view(r@) + components(s@) == components(s@));
        }
    }
    while at < s.len()
        invariant
            at <= s@.len(),
            components(s@) == parts_view(r@) + relative_components(s@.skip(at as int), first),
        decreases s@.len() - at,
    {
        let ghost rest = s@.skip(at as int);
        let mut end: usize = at;
        while end < s.len() && !s[end].is_slash()
            invariant
                at <= end <= s@.len(),
                rest == s@.skip(at as int),
                forall|j: int| 0 <= j < end - at ==> !(#[trigger] rest[j]).slash(),
            decreases s@.len() - end,
        {
            assert(rest[end - at] == s@[end as int]);
            end = end + 1;
        }
        let ghost before = parts_view(r@);
        let part = copy_range(s, at, end);
        proof {
            assert(end < s@.len() ==> rest[end - at] == s@[end as int]);
            lemma_part_len_unique(rest, end - at);
            assert(part@ == rest.take(end - at));
        }
        let ghost found = part_component(part@, first);
        let ghost tail = relative_components(s@.skip(end + 1), false);
        if part.len() == 0 {
            assert(before + found == before);
        } else if part.len() == 1 && part[0].is_dot() {
            if first {
                r.push(Part::Current);
                assert(parts_view(r@) == before + found);
            } else {
                assert(before + found == before);
            }
        } else if part.len() == 2 && part[0].is_dot() && part[1].is_dot() {
            r.push(Part::Parent);
            assert(parts_view(r@) == before + found);
        } else {
            r.push(Part::Normal(part));
            assert(parts_view(r@) == before + found);
        }
        first = false;
        if end < s.len() {
            proof {
                assert(rest.skip(end - at + 1) == s@.skip(end + 1));
                assert(before + (found + tail) == (before + found) + tail);
            }
            at = end + 1;
        } else {
            proof {
                assert(rest.take(end - at) == rest);
                assert(s@.skip(end as int).len() == 0);
                assert(before + found + relative_components(s@.skip(end as int), false) == before
                    + found);
            }
            at = end;
        }
    }
    proof {
        assert(s@.skip(at as int).len() == 0);
        assert(parts_view(r@) + relative_components(s@.skip(at as int), first) == parts_view(r@));
    }
    r
}

/// The name at index `at` among the components, if there is a name there.
pub(crate) fn name_at<T: PathUnit>(parts: &Vec<Part<T>>, at: usize) -> (r: Option<Vec<T>>)
    requires
        at < parts@.len(),
    ensures
        (match r {
            Some(name) => parts@[at as int]@ == Component::Normal(name@),
            None => !(parts@[at as int]@ is Normal),
        }),
{
    match &parts[at] {
        Part::Normal(name) => {
            let copy = copy_range(name, 0, name.len());
            assert(copy@ == name@);
            Some(copy)
        },
        _ => None,
    }
}

/// The last component of a path, if it is a name.
pub(crate) fn last_name<T: PathUnit>(s: &[T]) -> (r: Option<Vec<T>>)
    ensures
        (match r {
            Some(name) => file_name(components(s@)) == Some(name@),
            None => file_name(components(s@)) is None,
        }),
{
    let parts = split_path(s);
    assert(parts@.len() == components(s@).len());
    if parts.len() == 0 {
        None
    } else {
        assert(components(s@).last() == parts@.last()@);
        name_at(&parts, parts.len() - 1)
    }
}

/// Whether two sequences of units are equal.
pub(crate) fn same_units<T: PathUnit>(a: &[T], b: &[T]) -> (r: bool)
    ensures
        r == (a@ == b@),
{
    if a.len() != b.len() {
        return false;
    }
    let mut i: usize = 0;
    while i < a.len()
        invariant
            i <= a@.len(),
            a@.len() == b@.len(),
            forall|j: int| 0 <= j < i ==> a@[j] == b@[j],
        decreases a@.len() - i,
    {
        if !a[i].same(&b[i]) {
            assert(a@[i as int] != b@[i as int]);
            return false;
        }
        i = i + 1;
    }
    assert(a@ == b@);
    true
}

/// Whether two components are equal.
pub(crate) fn same_part<T: PathUnit>(a: &Part<T>, b: &Part<T>) -> (r: bool)
    ensures
        r == (a@ == b@),
{
    match (a, b) {
        (Part::Root, Part::Root) => true,
        (Part::Current, Part::Current) => true,
        (Part::Parent, Part::Parent) => true,
        (Part::Normal(x), Part::Normal(y)) => same_units(x, y),
        _ => false,
    }
}

/// The index of the last dot of a name, plus one; zero if there is none.
fn dot_behind<T: PathUnit>(name: &[T]) -> (r: usize)
    ensures
        r == last_dot(name@) + 1,
        r <= name@.len(),
{
    let mut i: usize = name.len();
    assert(name@.take(i as int) == name@);
    while i > 0
        invariant
            i <= name@.len(),
            last_dot(name@) == last_dot(name@.take(i as int)),
        decreases i,
    {
        let ghost head = name@.take(i as int);
        assert(head.last() == name@[i - 1]);
        if name[i - 1].is_dot() {
            return i;
        }
        assert(head.drop_last() == name@.take(i - 1));
        i = i - 1;
    }
    0
}

/// What follows the last dot of a name.
pub(crate) fn name_extension<T: PathUnit>(name: &[T]) -> (r: Option<Vec<T>>)
    ensures
        (match r {
            Some(e) => extension(name@) == Some(e@),
            None => extension(name@) is None,
        }),
{
    let behind = dot_behind(name);
    if behind > 1 {
        let r = copy_range(name, behind, name.len());
        assert(r@ == name@.skip(behind as int));
        Some(r)
    } else {
        None
    }
}

/// A name without its extension.
pub(crate) fn name_stem<T: PathUnit>(name: &[T]) -> (r: Vec<T>)
    ensures
        r@ == stem(name@),
{
    let behind = dot_behind(name);
    if behind > 1 {
        let r = copy_range(name, 0, behind - 1);
        assert(r@ == name@.take(behind - 1));
        r
    } else {
        let r = copy_range(name, 0, name.len());
        assert(r@ == name@);
        r
    }
}

// ---------------------------------------------------------------------------
// What holds of paths
// ---------------------------------------------------------------------------

/// A path starts at the root exactly where it is absolute, and the root stands nowhere else.
pub proof fn lemma_root<T: PathUnit>(s: Seq<T>)
    ensures
        components(s).len() > 0 && components(s)[0] is Root <==> is_absolute(s),
        forall|i: int| 0 < i < components(s).len() ==> !(#[trigger] components(s)[i] is Root),
{
    lemma_relative_has_no_root(s, true);
    if is_absolute(s) {
        lemma_relative_has_no_root(s.drop_first(), false);
    }
}

proof fn lemma_relative_has_no_root<T: PathUnit>(s: Seq<T>, first: bool)
    ensures
        forall|i: int|
            0 <= i < relative_components(s, first).len() ==> !(#[trigger] relative_components(
                s,
                first,
            )[i] is Root),
    decreases s.len(),
{
    let n = part_len(s) as int;
    if s.len() > 0 && 0 <= n < s.len() {
        lemma_relative_has_no_root(s.skip(n + 1), false);
    }
}

/// The name of a file is the last component of its path, and the path of its directory is what stands
/// before it.
pub proof fn lemma_parent_and_name<T>(path: Seq<Component<T>>)
    ensures
        file_name(path) matches Some(name) ==> parent(path) matches Some(above) && path
            == above.push(Component::Normal(name)),
        file_name(path) is None <==> path.len() == 0 || !(path.last() is Normal),
        parent(path) is None <==> path.len() == 0 || path.last() is Root,
        parent(path) matches Some(above) ==> path.len() == above.len() + 1 && path == above.push(
            path.last(),
        ),
{
    if path.len() > 0 {
        assert(path =~= path.drop_last().push(path.last()));
    }
}

/// A name is its stem, a full stop and its extension, and no full stop stands in the extension. It
/// has none where there is no full stop behind its first character, and is then its own stem.
pub proof fn lemma_stem_and_extension<T: PathUnit>(name: Seq<T>)
    ensures
        (match extension(name) {
            Some(ext) => {
                let n = stem(name).len() as int;
                &&& n > 0
                &&& name.len() == n + 1 + ext.len()
                &&& name.take(n) == stem(name)
                &&& name[n].dot()
                &&& name.skip(n + 1) == ext
                &&& forall|i: int| 0 <= i < ext.len() ==> !(#[trigger] ext[i]).dot()
            },
            None => stem(name) == name && forall|i: int|
                0 < i < name.len() ==> !(#[trigger] name[i]).dot(),
        }),
{
    lemma_last_dot(name);
    let k = last_dot(name);
    if k > 0 {
        let ext = name.skip(k + 1);
        assert forall|i: int| 0 <= i < ext.len() implies !(#[trigger] ext[i]).dot() by {
            assert(ext[i] == name[k + 1 + i]);
        }
    }
}

proof fn lemma_last_dot<T: PathUnit>(name: Seq<T>)
    ensures
        -1 <= last_dot(name) < name.len(),
        last_dot(name) >= 0 ==> name[last_dot(name)].dot(),
        forall|i: int| last_dot(name) < i < name.len() ==> !(#[trigger] name[i]).dot(),
    decreases name.len(),
{
    if name.len() > 0 && !name.last().dot() {
        let front = name.drop_last();
        lemma_last_dot(front);
        assert forall|i: int| last_dot(name) < i < name.len() implies !(
        #[trigger] name[i]).dot() by {
            if i < front.len() {
                assert(front[i] == name[i]);
            }
        }
    }
}

/// The text of bytes that are UTF-8 stands for these bytes.
pub proof fn lemma_lossy_text(s: Seq<char>)
    ensures
        lossy_text(vstd::utf8::encode_utf8(s)) == s,
{
    vstd::utf8::encode_utf8_valid_utf8(s);
    vstd::utf8::encode_utf8_decode_utf8(s);
}

} // verus!
