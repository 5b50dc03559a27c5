//! Paths of the local file system.
use vstd::prelude::*;

use crate::order;
use crate::path;
use crate::path::{
    bytes_to_text, copy_range, last_name, same_part, split_path, Component, Part, PathUnit,
};

verus! {

/// A path of the local file system: a sequence of bytes.
#[derive(Debug, Eq)]
pub struct LocalPath {
    pub bytes: Vec<u8>,
}

impl View for LocalPath {
    type V = Seq<u8>;

    open spec fn view(&self) -> Seq<u8> {
        self.bytes@
    }
}

/// The spellings that a vector of paths holds.
pub open spec fn path_views(paths: Seq<LocalPath>) -> Seq<Seq<u8>> {
    paths.map_values(|p: LocalPath| p@)
}

/// Two spellings of one path: they have the same components.
pub open spec fn same_path(a: Seq<u8>, b: Seq<u8>) -> bool {
    path::components(a) == path::components(b)
}

/// The components of `base` are the first components of `path`.
pub open spec fn lies_in(path: Seq<u8>, base: Seq<u8>) -> bool {
    path::components(base).is_prefix_of(path::components(path))
}

/// The path that `tail` stands for when it is looked up in `base`.
pub open spec fn joined_path(base: Seq<u8>, tail: Seq<u8>) -> Seq<u8> {
    if path::is_absolute(tail) {
        tail
    } else if base.len() > 0 && base.last() != 47 {
        base.push(47) + tail
    } else {
        base + tail
    }
}

/// The last component of a path as a text; empty where it is not a name.
pub open spec fn name_text(path: Seq<u8>) -> Seq<char> {
    match path::file_name(path::components(path)) {
        Some(name) => path::lossy_text(name),
        None => Seq::empty(),
    }
}

impl Clone for LocalPath {
    fn clone(&self) -> (r: Self)
        ensures
            r@ == self@,
    {
        let bytes = copy_range(&self.bytes, 0, self.bytes.len());
        assert(bytes@ == self.bytes@);
        LocalPath { bytes }
    }
}

impl PartialEq for LocalPath {
    fn eq(&self, other: &Self) -> (r: bool) {
        self.is_same(other)
    }
}

impl vstd::std_specs::cmp::PartialEqSpecImpl for LocalPath {
    open spec fn obeys_eq_spec() -> bool {
        true
    }

    open spec fn eq_spec(&self, other: &Self) -> bool {
        same_path(self@, other@)
    }
}

impl LocalPath {
    /// The path that a text spells.
    pub fn from_text(text: &str) -> (r: Self)
        ensures
            r@ == vstd::utf8::encode_utf8(text@),
    {
        let bytes = text.as_bytes();
        let copy = copy_range(bytes, 0, bytes.len());
        assert(copy@ == bytes@);
        LocalPath { bytes: copy }
    }

    /// The path that a sequence of bytes spells.
    pub fn from_bytes(bytes: Vec<u8>) -> (r: Self)
        ensures
            r@ == bytes@,
    {
        LocalPath { bytes }
    }

    /// The path as a text.
    pub fn display(&self) -> (r: String)
        ensures
            r@ == path::lossy_text(self@),
    {
        bytes_to_text(&self.bytes)
    }

    /// Whether two paths have the same components.
    pub fn is_same(&self, other: &LocalPath) -> (r: bool)
        ensures
            r == same_path(self@, other@),
    {
        let a = split_path(&self.bytes);
        let b = split_path(&other.bytes);
        proof {
            assert(a@.len() == path::components(self@).len());
            assert(b@.len() == path::components(other@).len());
        }
        a.len() == b.len() && starts_with_parts(&a, &b)
    }

    /// Whether the components of `base` are the first components of this path.
    pub fn starts_with(&self, base: &LocalPath) -> (r: bool)
        ensures
            r == lies_in(self@, base@),
    {
        let a = split_path(&self.bytes);
        let b = split_path(&base.bytes);
        proof {
            assert(a@.len() == path::components(self@).len());
            assert(b@.len() == path::components(base@).len());
        }
        a.len() >= b.len() && starts_with_parts(&a, &b)
    }

    /// Whether the path starts at the root.
    pub fn is_absolute(&self) -> (r: bool)
        ensures
            r == path::is_absolute(self@),
    {
        self.bytes.len() > 0 && self.bytes[0] == 47
    }

    /// The path of `tail` in this directory; `tail` itself where it is absolute.
    pub fn join(&self, tail: &LocalPath) -> (r: LocalPath)
        ensures
            r@ == joined_path(self@, tail@),
    {
        if tail.is_absolute() {
            return tail.clone();
        }
        let mut bytes = copy_range(&self.bytes, 0, self.bytes.len());
        assert(bytes@ == self.bytes@);
        if bytes.len() > 0 && bytes[bytes.len() - 1] != 47 {
            bytes.push(47);
        }
        let ghost base = bytes@;
        let mut i: usize = 0;
        assert(base + tail.bytes@.take(0) == base);
        while i < tail.bytes.len()
            invariant
                i <= tail.bytes@.len(),
                bytes@ == base + tail.bytes@.take(i as int),
            decreases tail.bytes@.len() - i,
        {
            bytes.push(tail.bytes[i]);
            i = i + 1;
            assert(base + tail.bytes@.take(i as int) == (base + tail.bytes@.take(i - 1)).push(
                tail.bytes@[i - 1],
            ));
        }
        assert(tail.bytes@.take(i as int) == tail.bytes@);
        LocalPath { bytes }
    }

    /// The last component as a text; empty where it is not a name.
    pub fn name(&self) -> (r: String)
        ensures
            r@ == name_text(self@),
    {
        match last_name(&self.bytes) {
            Some(name) => bytes_to_text(&name),
            None => String::new(),
        }
    }
}

/// Whether the first parts of `a` are the parts `b`.
fn starts_with_parts(a: &Vec<Part<u8>>, b: &Vec<Part<u8>>) -> (r: bool)
    requires
        b@.len() <= a@.len(),
    ensures
        r == path::parts_view(b@).is_prefix_of(path::parts_view(a@)),
        r && a@.len() == b@.len() ==> path::parts_view(a@) == path::parts_view(b@),
{
    let mut i: usize = 0;
    while i < b.len()
        invariant
            i <= b@.len() <= a@.len(),
            forall|j: int| 0 <= j < i ==> path::parts_view(a@)[j] == path::parts_view(b@)[j],
        decreases b@.len() - i,
    {
        proof {
            assert(path::parts_view(a@)[i as int] == a@[i as int]@);
            assert(path::parts_view(b@)[i as int] == b@[i as int]@);
        }
        if !same_part(&a[i], &b[i]) {
            proof {
                let pa = path::parts_view(a@);
                let pb = path::parts_view(b@);
                assert(pa.subrange(0, pb.len() as int)[i as int] == pa[i as int]);
            }
            return false;
        }
        i = i + 1;
    }
    proof {
        let pa = path::parts_view(a@);
        let pb = path::parts_view(b@);
        assert(pb =~= pa.subrange(0, pb.len() as int));
        if a@.len() == b@.len() {
            assert(pa =~= pb);
        }
    }
    true
}

/// The empty path has no components.
proof fn lemma_no_components(s: Seq<u8>, first: bool)
    requires
        s.len() == 0,
    ensures
        path::relative_components(s, first) == Seq::<Component<u8>>::empty(),
{
}

/// A name behind a separator adds one component.
proof fn lemma_name_behind_separator(s: Seq<u8>, name: Seq<u8>, first: bool)
    requires
        path::is_proper_name(name),
        s.len() > 0 ==> s.last() == 47,
    ensures
        path::relative_components(s + name, first) == path::relative_components(s, first).push(
            Component::Normal(name),
        ),
    decreases s.len(),
{
    let all = s + name;
    if s.len() == 0 {
        assert(all =~= name);
        path::lemma_part_len_unique(name, name.len() as int);
        assert(path::relative_components(s, first).push(Component::Normal(name)) =~= seq![
            Component::Normal(name),
        ]);
    } else {
        path::lemma_part_len(s);
        let n = path::part_len(s) as int;
        if n == s.len() {
            assert(!s[n - 1].slash());
        }
        assert forall|j: int| 0 <= j < n implies !(#[trigger] all[j]).slash() by {
            assert(all[j] == s[j]);
        }
        assert(all[n] == s[n]);
        path::lemma_part_len_unique(all, n);
        let rest = s.skip(n + 1);
        assert(all.take(n) =~= s.take(n));
        assert(all.skip(n + 1) =~= rest + name);
        if rest.len() > 0 {
            assert(rest.last() == s.last());
        }
        lemma_name_behind_separator(rest, name, false);
        let head = path::part_component(s.take(n), first);
        let tail = path::relative_components(rest, false);
        assert(head + tail.push(Component::Normal(name)) =~= (head + tail).push(
            Component::Normal(name),
        ));
    }
}

/// A separator at the end adds no component.
proof fn lemma_separator_at_end(s: Seq<u8>, first: bool)
    requires
        s.len() > 0,
    ensures
        path::relative_components(s.push(47), first) == path::relative_components(s, first),
    decreases s.len(),
{
    let all = s.push(47);
    path::lemma_part_len(s);
    let n = path::part_len(s) as int;
    assert forall|j: int| 0 <= j < n implies !(#[trigger] all[j]).slash() by {
        assert(all[j] == s[j]);
    }
    if n < s.len() {
        assert(all[n] == s[n]);
    } else {
        assert(all[n] == 47);
    }
    path::lemma_part_len_unique(all, n);
    assert(all.take(n) =~= s.take(n));
    if n < s.len() {
        let rest = s.skip(n + 1);
        assert(all.skip(n + 1) =~= rest.push(47));
        if rest.len() > 0 {
            lemma_separator_at_end(rest, false);
        } else {
            let one = rest.push(47);
            assert(one[0] == 47);
            path::lemma_part_len_unique(one, 0);
            assert(one.take(0).len() == 0);
            lemma_no_components(one.skip(1), false);
            lemma_no_components(rest, false);
            assert(path::relative_components(one, false) =~= path::relative_components(rest, false));
        }
    } else {
        assert(s.take(n) =~= s);
        lemma_no_components(all.skip(n + 1), false);
        assert(path::relative_components(all, first) =~= path::part_component(s, first));
    }
}

/// A file name that is looked up in a directory leads to an entry of that directory.
pub proof fn lemma_joined_name(base: Seq<u8>, name: Seq<u8>)
    requires
        path::is_proper_name(name),
    ensures
        path::components(joined_path(base, name)) == path::components(base).push(
            Component::Normal(name),
        ),
{
    assert(!name[0].slash());
    let joined = joined_path(base, name);
    if base.len() == 0 {
        assert(joined =~= base + name);
        lemma_name_behind_separator(base, name, true);
    } else if base.last() == 47 {
        assert(joined =~= base + name);
        assert(joined[0] == base[0]);
        if path::is_absolute(base) {
            let rest = base.drop_first();
            assert(joined.drop_first() =~= rest + name);
            if rest.len() > 0 {
                assert(rest.last() == base.last());
            }
            lemma_name_behind_separator(rest, name, false);
            assert(path::components(joined) =~= path::components(base).push(
                Component::Normal(name),
            ));
        } else {
            lemma_name_behind_separator(base, name, true);
        }
    } else {
        let dir = base.push(47);
        assert(joined =~= dir + name);
        assert(joined[0] == base[0]);
        if path::is_absolute(base) {
            let rest = base.drop_first();
            assert(rest.len() > 0);
            assert(dir.drop_first() =~= rest.push(47));
            assert(joined.drop_first() =~= rest.push(47) + name);
            lemma_name_behind_separator(rest.push(47), name, false);
            lemma_separator_at_end(rest, false);
            assert(path::components(joined) =~= path::components(base).push(
                Component::Normal(name),
            ));
        } else {
            lemma_name_behind_separator(dir, name, true);
            lemma_separator_at_end(base, true);
        }
    }
}

/// The UTF-8 of one character holds the byte of an ASCII character only where it is that
/// character.
proof fn lemma_scalar_bytes(c: char, ascii: u8)
    requires
        ascii < 128,
    ensures
        vstd::utf8::encode_scalar(c as u32).len() > 0,
        vstd::utf8::encode_scalar(c as u32).contains(ascii) == (c as u32 == ascii as u32),
        c as u32 == ascii as u32 ==> vstd::utf8::encode_scalar(c as u32) == seq![ascii] && c
            == ascii as char,
{
    let v = c as u32;
    vstd::utf8::char_u32_cast(c, v);
    vstd::utf8::char_is_scalar(c);
    let bytes = vstd::utf8::encode_scalar(v);
    if v <= 0x7f {
        assert((v & 0x7f) as u8 == v) by (bit_vector)
            requires
                v <= 0x7f,
        ;
        assert(bytes[0] == v as u8);
    } else {
        let a = ((v >> 6) & 0x1f) as u8;
        let b = ((v >> 12) & 0x0f) as u8;
        let d = ((v >> 18) & 0x7) as u8;
        let e = (v & 0x3f) as u8;
        let f = ((v >> 6) & 0x3f) as u8;
        let g = ((v >> 12) & 0x3f) as u8;
        assert((0xc0u8 | a) >= 128) by (bit_vector);
        assert((0xe0u8 | b) >= 128) by (bit_vector);
        assert((0xf0u8 | d) >= 128) by (bit_vector);
        assert((0x80u8 | e) >= 128) by (bit_vector);
        assert((0x80u8 | f) >= 128) by (bit_vector);
        assert((0x80u8 | g) >= 128) by (bit_vector);
        assert forall|i: int| 0 <= i < bytes.len() implies #[trigger] bytes[i] >= 128 by {}
        assert(bytes[0] >= 128);
    }
}

/// The UTF-8 of a text holds the byte of an ASCII character exactly where the text holds that
/// character.
pub proof fn lemma_utf8_bytes(s: Seq<char>, ascii: u8)
    requires
        ascii < 128,
    ensures
        vstd::utf8::encode_utf8(s).contains(ascii) == s.contains(ascii as char),
        vstd::utf8::encode_utf8(s).len() >= s.len(),
    decreases s.len(),
{
    let bytes = vstd::utf8::encode_utf8(s);
    if s.len() > 0 {
        let head = vstd::utf8::encode_scalar(s[0] as u32);
        let rest = s.drop_first();
        let tail = vstd::utf8::encode_utf8(rest);
        lemma_scalar_bytes(s[0], ascii);
        lemma_utf8_bytes(rest, ascii);
        if bytes.contains(ascii) {
            let i = choose|i: int| 0 <= i < bytes.len() && bytes[i] == ascii;
            if i < head.len() {
                assert(head[i] == ascii);
                assert(head.contains(ascii));
                assert(s[0] == ascii as char);
            } else {
                assert(tail[i - head.len()] == ascii);
                assert(tail.contains(ascii));
                let k = choose|k: int| 0 <= k < rest.len() && rest[k] == ascii as char;
                assert(s[k + 1] == ascii as char);
            }
        }
        if s.contains(ascii as char) {
            let k = choose|k: int| 0 <= k < s.len() && s[k] == ascii as char;
            if k == 0 {
                assert(head[0] == ascii);
                assert(bytes[0] == ascii);
            } else {
                assert(rest[k - 1] == ascii as char);
                assert(tail.contains(ascii));
                let i = choose|i: int| 0 <= i < tail.len() && tail[i] == ascii;
                assert(bytes[head.len() + i] == ascii);
            }
        }
    }
}

/// The UTF-8 of a proper file name is one.
pub proof fn lemma_utf8_name(name: Seq<char>)
    requires
        path::is_proper_name(name),
    ensures
        path::is_proper_name(vstd::utf8::encode_utf8(name)),
{
    let bytes = vstd::utf8::encode_utf8(name);
    lemma_utf8_bytes(name, 47);
    lemma_utf8_bytes(name, 46);
    assert(!name.contains('/')) by {
        if name.contains('/') {
            let k = choose|k: int| 0 <= k < name.len() && name[k] == '/';
            assert(!name[k].slash());
        }
    }
    assert forall|i: int| 0 <= i < bytes.len() implies !(#[trigger] bytes[i]).slash() by {
        if bytes[i].slash() {
            assert(bytes.contains(47u8));
        }
    }
    let rest = name.drop_first();
    let head = vstd::utf8::encode_scalar(name[0] as u32);
    lemma_scalar_bytes(name[0], 46);
    if bytes.len() == 1 && bytes[0].dot() {
        assert(head[0] == 46);
        assert(head.contains(46u8));
        assert(name[0] == '.');
        lemma_utf8_bytes(rest, 46);
        assert(name.len() == 1);
    }
    if bytes.len() == 2 && bytes[0].dot() && bytes[1].dot() {
        assert(head[0] == 46);
        assert(head.contains(46u8));
        assert(name[0] == '.');
        assert(head.len() == 1);
        let tail = vstd::utf8::encode_utf8(rest);
        lemma_utf8_bytes(rest, 46);
        assert(tail.len() == 1);
        assert(tail[0] == bytes[1]);
        assert(rest.len() > 0);
        lemma_scalar_bytes(rest[0], 46);
        let second = vstd::utf8::encode_scalar(rest[0] as u32);
        assert(second[0] == tail[0]);
        assert(second.contains(46u8));
        assert(name[1] == '.');
        lemma_utf8_bytes(rest.drop_first(), 46);
        assert(name.len() == 2);
    }
}

// ---------------------------------------------------------------------------
// The order of paths
// ---------------------------------------------------------------------------

/// The rank of a component's kind.
pub open spec fn rank(c: Component<u8>) -> u32 {
    match c {
        Component::Root => 1,
        Component::Current => 2,
        Component::Parent => 3,
        Component::Normal(_) => 4,
    }
}

/// The bytes of a name as numbers.
pub open spec fn name_key(name: Seq<u8>) -> Seq<u32> {
    name.map_values(|b: u8| b as u32)
}

/// A component comes before another: by its kind, and names by their bytes.
pub open spec fn component_less(a: Component<u8>, b: Component<u8>) -> bool {
    match (a, b) {
        (Component::Normal(x), Component::Normal(y)) => order::lex_less(name_key(x), name_key(y)),
        _ => rank(a) < rank(b),
    }
}

/// A path comes before another: by its first component that differs, and a path comes before all
/// that lies in it.
pub open spec fn path_less(a: Seq<Component<u8>>, b: Seq<Component<u8>>) -> bool
    decreases a.len(),
{
    if b.len() == 0 {
        false
    } else if a.len() == 0 {
        true
    } else {
        component_less(a[0], b[0]) || (a[0] == b[0] && path_less(a.drop_first(), b.drop_first()))
    }
}

/// The bytes of a name, each one above zero, and a zero behind them.
pub open spec fn closed_key(name: Seq<u8>) -> Seq<u32>
    decreases name.len(),
{
    if name.len() == 0 {
        seq![0]
    } else {
        seq![(name[0] + 1) as u32] + closed_key(name.drop_first())
    }
}

/// The sort key of a component.
pub open spec fn component_key(c: Component<u8>) -> Seq<u32> {
    match c {
        Component::Normal(name) => seq![4u32] + closed_key(name),
        _ => seq![rank(c)],
    }
}

/// The sort key of a path.
pub open spec fn path_key(components: Seq<Component<u8>>) -> Seq<u32>
    decreases components.len(),
{
    if components.len() == 0 {
        Seq::empty()
    } else {
        component_key(components[0]) + path_key(components.drop_first())
    }
}

proof fn lemma_lex_cons(x: u32, s: Seq<u32>, y: u32, t: Seq<u32>)
    ensures
        order::lex_less(seq![x] + s, seq![y] + t) == (x < y || (x == y && order::lex_less(s, t))),
{
    assert((seq![x] + s).drop_first() =~= s);
    assert((seq![y] + t).drop_first() =~= t);
}

proof fn lemma_closed_key(a: Seq<u8>, s: Seq<u32>, b: Seq<u8>, t: Seq<u32>)
    ensures
        order::lex_less(closed_key(a) + s, closed_key(b) + t) == (order::lex_less(name_key(a), name_key(b)) || (a
            == b && order::lex_less(s, t))),
    decreases a.len(),
{
    let ka = closed_key(a);
    let kb = closed_key(b);
    if a.len() > 0 {
        let x = (a[0] + 1) as u32;
        let a1 = closed_key(a.drop_first()) + s;
        assert(ka + s =~= seq![x] + a1);
        assert(name_key(a) =~= seq![a[0] as u32] + name_key(a.drop_first()));
        if b.len() > 0 {
            let y = (b[0] + 1) as u32;
            let b1 = closed_key(b.drop_first()) + t;
            assert(kb + t =~= seq![y] + b1);
            assert(name_key(b) =~= seq![b[0] as u32] + name_key(b.drop_first()));
            lemma_lex_cons(x, a1, y, b1);
            lemma_lex_cons(
                a[0] as u32,
                name_key(a.drop_first()),
                b[0] as u32,
                name_key(b.drop_first()),
            );
            lemma_closed_key(a.drop_first(), s, b.drop_first(), t);
            if a[0] == b[0] && a.drop_first() == b.drop_first() {
                assert(a =~= seq![a[0]] + a.drop_first());
                assert(b =~= seq![b[0]] + b.drop_first());
            }
        } else {
            assert(kb + t =~= seq![0u32] + t);
            lemma_lex_cons(x, a1, 0, t);
        }
    } else {
        assert(ka + s =~= seq![0u32] + s);
        if b.len() > 0 {
            let y = (b[0] + 1) as u32;
            let b1 = closed_key(b.drop_first()) + t;
            assert(kb + t =~= seq![y] + b1);
            lemma_lex_cons(0, s, y, b1);
        } else {
            assert(kb + t =~= seq![0u32] + t);
            lemma_lex_cons(0, s, 0, t);
            assert(a =~= b);
        }
    }
}

proof fn lemma_component_key(a: Component<u8>, s: Seq<u32>, b: Component<u8>, t: Seq<u32>)
    ensures
        order::lex_less(component_key(a) + s, component_key(b) + t) == (component_less(a, b) || (a == b
            && order::lex_less(s, t))),
{
    let sa = match a {
        Component::Normal(x) => closed_key(x) + s,
        _ => s,
    };
    let sb = match b {
        Component::Normal(y) => closed_key(y) + t,
        _ => t,
    };
    assert(component_key(a) + s =~= seq![rank(a)] + sa);
    assert(component_key(b) + t =~= seq![rank(b)] + sb);
    lemma_lex_cons(rank(a), sa, rank(b), sb);
    match (a, b) {
        (Component::Normal(x), Component::Normal(y)) => {
            lemma_closed_key(x, s, y, t);
        },
        _ => {},
    }
}

/// The keys of paths are ordered as the paths are.
pub proof fn lemma_path_key_order(a: Seq<Component<u8>>, b: Seq<Component<u8>>)
    ensures
        order::lex_less(path_key(a), path_key(b)) == path_less(a, b),
    decreases a.len(),
{
    if b.len() > 0 {
        if a.len() > 0 {
            lemma_path_key_order(a.drop_first(), b.drop_first());
            lemma_component_key(
                a[0],
                path_key(a.drop_first()),
                b[0],
                path_key(b.drop_first()),
            );
        }
    }
}

/// The sort key of a path.
pub(crate) fn key_of_path(p: &LocalPath) -> (r: Vec<u32>)
    ensures
        r@ == path_key(path::components(p@)),
{
    let parts = split_path(&p.bytes);
    let ghost all = path::components(p@);
    let mut r: Vec<u32> = Vec::new();
    let mut i: usize = 0;
    proof {
        assert(all.skip(0) == all);
        assert(r@ + path_key(all) == path_key(all));
        assert(parts@.len() == all.len());
    }
    while i < parts.len()
        invariant
            i <= parts@.len() == all.len(),
            path::parts_view(parts@) == all,
            path_key(all) == r@ + path_key(all.skip(i as int)),
        decreases parts@.len() - i,
    {
        let ghost before = r@;
        let ghost rest = path_key(all.skip(i + 1));
        proof {
            assert(all[i as int] == parts@[i as int]@);
            assert(all.skip(i as int)[0] == all[i as int]);
            assert(all.skip(i as int).drop_first() == all.skip(i + 1));
        }
        match &parts[i] {
            Part::Root => {
                r.push(1);
            },
            Part::Current => {
                r.push(2);
            },
            Part::Parent => {
                r.push(3);
            },
            Part::Normal(name) => {
                r.push(4);
                push_closed_key(&mut r, name);
            },
        }
        proof {
            assert(r@ == before + component_key(all[i as int]));
            assert(before + (component_key(all[i as int]) + rest) == (before + component_key(
                all[i as int],
            )) + rest);
        }
        i = i + 1;
    }
    assert(all.skip(i as int).len() == 0);
    assert(r@ + path_key(all.skip(i as int)) == r@);
    r
}

/// Adds the key of a name.
fn push_closed_key(key: &mut Vec<u32>, name: &Vec<u8>)
    ensures
        final(key)@ == old(key)@ + closed_key(name@),
{
    let ghost before = key@;
    let mut i: usize = 0;
    assert(name@.skip(0) == name@);
    while i < name.len()
        invariant
            i <= name@.len(),
            before + closed_key(name@) == key@ + closed_key(name@.skip(i as int)),
        decreases name@.len() - i,
    {
        let ghost so_far = key@;
        let ghost rest = closed_key(name@.skip(i + 1));
        proof {
            assert(name@.skip(i as int)[0] == name@[i as int]);
            assert(name@.skip(i as int).drop_first() == name@.skip(i + 1));
        }
        let unit: u32 = name[i] as u32 + 1;
        key.push(unit);
        assert(so_far + (seq![unit] + rest) == key@ + rest);
        i = i + 1;
    }
    assert(name@.skip(i as int).len() == 0);
    let ghost so_far = key@;
    key.push(0);
    assert(so_far + seq![0u32] == key@);
}

// ---------------------------------------------------------------------------
// Sets of paths
// ---------------------------------------------------------------------------

/// A path is among the given ones.
pub open spec fn has_path(paths: Seq<Seq<u8>>, p: Seq<u8>) -> bool {
    exists|i: int| 0 <= i < paths.len() && same_path(#[trigger] paths[i], p)
}

/// The paths with one more, which is added only where it is not yet there.
pub open spec fn with_path(paths: Seq<Seq<u8>>, p: Seq<u8>) -> Seq<Seq<u8>> {
    if has_path(paths, p) {
        paths
    } else {
        paths.push(p)
    }
}

/// The paths with several more.
pub open spec fn with_paths(paths: Seq<Seq<u8>>, more: Seq<Seq<u8>>) -> Seq<Seq<u8>>
    decreases more.len(),
{
    if more.len() == 0 {
        paths
    } else {
        with_path(with_paths(paths, more.drop_last()), more.last())
    }
}

/// The paths without one.
pub open spec fn without_path(paths: Seq<Seq<u8>>, p: Seq<u8>) -> Seq<Seq<u8>> {
    paths.filter(|q: Seq<u8>| !same_path(q, p))
}

/// The paths without several.
pub open spec fn without_paths(paths: Seq<Seq<u8>>, fewer: Seq<Seq<u8>>) -> Seq<Seq<u8>>
    decreases fewer.len(),
{
    if fewer.len() == 0 {
        paths
    } else {
        without_path(without_paths(paths, fewer.drop_last()), fewer.last())
    }
}

/// All of `some` are among `paths`.
pub open spec fn has_paths(paths: Seq<Seq<u8>>, some: Seq<Seq<u8>>) -> bool {
    forall|i: int| 0 <= i < some.len() ==> has_path(paths, #[trigger] some[i])
}

/// No path stands twice among the given ones.
pub open spec fn distinct_paths(paths: Seq<Seq<u8>>) -> bool {
    forall|i: int, j: int|
        0 <= i < j < paths.len() ==> !same_path(#[trigger] paths[i], #[trigger] paths[j])
}

/// A set of paths.
#[derive(Debug)]
pub struct PathSet {
    pub paths: Vec<LocalPath>,
}

impl View for PathSet {
    type V = Seq<Seq<u8>>;

    open spec fn view(&self) -> Seq<Seq<u8>> {
        path_views(self.paths@)
    }
}

/// The index of a path among others, if it is there.
pub(crate) fn position_of_path(paths: &Vec<LocalPath>, p: &LocalPath) -> (r: Option<usize>)
    ensures
        (match r {
            Some(i) => i < paths@.len() && same_path(paths@[i as int]@, p@) && forall|j: int|
                0 <= j < i ==> !same_path((#[trigger] paths@[j])@, p@),
            None => !has_path(path_views(paths@), p@),
        }),
        r is Some ==> has_path(path_views(paths@), p@),
{
    let mut i: usize = 0;
    while i < paths.len()
        invariant
            i <= paths@.len(),
            forall|j: int| 0 <= j < i ==> !same_path((#[trigger] paths@[j])@, p@),
        decreases paths@.len() - i,
    {
        if paths[i].is_same(p) {
            assert(path_views(paths@)[i as int] == paths@[i as int]@);
            return Some(i);
        }
        i = i + 1;
    }
    proof {
        assert forall|j: int| 0 <= j < path_views(paths@).len() implies !same_path(
            #[trigger] path_views(paths@)[j],
            p@,
        ) by {
            assert(path_views(paths@)[j] == paths@[j]@);
        }
    }
    None
}

impl PathSet {
    /// No path stands twice in the set.
    pub open spec fn wf(&self) -> bool {
        distinct_paths(self@)
    }

    /// The empty set.
    pub fn new() -> (r: Self)
        ensures
            r@ == Seq::<Seq<u8>>::empty(),
            r.wf(),
    {
        let r = PathSet { paths: Vec::new() };
        assert(r@ =~= Seq::<Seq<u8>>::empty());
        r
    }

    /// Whether a path is in the set.
    pub fn contains(&self, p: &LocalPath) -> (r: bool)
        ensures
            r == has_path(self@, p@),
    {
        position_of_path(&self.paths, p).is_some()
    }

    /// Whether the set is empty.
    pub fn is_empty(&self) -> (r: bool)
        ensures
            r == (self@.len() == 0),
    {
        self.paths.len() == 0
    }

    /// Whether all of the given paths are in the set.
    pub fn contains_all(&self, some: &Vec<LocalPath>) -> (r: bool)
        ensures
            r == has_paths(self@, path_views(some@)),
    {
        let ghost all = path_views(some@);
        let mut i: usize = 0;
        while i < some.len()
            invariant
                i <= some@.len(),
                all == path_views(some@),
                forall|j: int| 0 <= j < i ==> has_path(self@, #[trigger] all[j]),
            decreases some@.len() - i,
        {
            assert(all[i as int] == some@[i as int]@);
            if !self.contains(&some[i]) {
                assert(!has_path(self@, all[i as int]));
                return false;
            }
            i = i + 1;
        }
        true
    }

    /// Adds a path, unless it is there.
    pub fn insert(&mut self, p: LocalPath)
        ensures
            final(self)@ == with_path(old(self)@, p@),
            old(self).wf() ==> final(self).wf(),
    {
        if !self.contains(&p) {
            let ghost before = self@;
            self.paths.push(p);
            assert(self@ =~= before.push(p@));
            proof {
                if distinct_paths(before) {
                    assert forall|i: int, j: int| 0 <= i < j < self@.len() implies !same_path(
                        #[trigger] self@[i],
                        #[trigger] self@[j],
                    ) by {
                        assert(self@[i] == before[i]);
                        if j < before.len() {
                            assert(self@[j] == before[j]);
                        }
                    }
                }
            }
        }
    }

    /// Adds several paths.
    pub fn insert_all(&mut self, more: &Vec<LocalPath>)
        ensures
            final(self)@ == with_paths(old(self)@, path_views(more@)),
            old(self).wf() ==> final(self).wf(),
    {
        let ghost before = self@;
        let ghost all = path_views(more@);
        let mut i: usize = 0;
        assert(all.take(0).len() == 0);
        while i < more.len()
            invariant
                i <= more@.len(),
                all == path_views(more@),
                self@ == with_paths(before, all.take(i as int)),
                distinct_paths(before) ==> self.wf(),
            decreases more@.len() - i,
        {
            proof {
                assert(all.take(i + 1).drop_last() =~= all.take(i as int));
                assert(all.take(i + 1).last() == more@[i as int]@);
            }
            self.insert(more[i].clone());
            i = i + 1;
        }
        assert(all.take(i as int) == all);
    }

    /// Removes a path.
    pub fn remove(&mut self, p: &LocalPath)
        ensures
            final(self)@ == without_path(old(self)@, p@),
            old(self).wf() ==> final(self).wf(),
    {
        let ghost before = self@;
        let ghost keep = |q: Seq<u8>| !same_path(q, p@);
        let mut kept: Vec<LocalPath> = Vec::new();
        let mut i: usize = 0;
        proof {
            crate::seqs::lemma_filter_ends(before, keep);
            assert(path_views(kept@) =~= Seq::<Seq<u8>>::empty());
        }
        while i < self.paths.len()
            invariant
                i <= self.paths@.len(),
                before == self@,
                keep == (|q: Seq<u8>| !same_path(q, p@)),
                path_views(kept@) == before.take(i as int).filter(keep),
            decreases self.paths@.len() - i,
        {
            proof {
                crate::seqs::lemma_filter_next(before, i as int, keep);
                assert(before[i as int] == self.paths@[i as int]@);
            }
            if !self.paths[i].is_same(p) {
                let ghost so_far = path_views(kept@);
                let copy = self.paths[i].clone();
                kept.push(copy);
                assert(path_views(kept@) =~= so_far.push(copy@));
            }
            i = i + 1;
        }
        self.paths = kept;
        proof {
            if distinct_paths(before) {
                lemma_filter_distinct(before, keep);
            }
        }
    }

    /// Removes several paths.
    pub fn remove_all(&mut self, fewer: &Vec<LocalPath>)
        ensures
            final(self)@ == without_paths(old(self)@, path_views(fewer@)),
            old(self).wf() ==> final(self).wf(),
    {
        let ghost before = self@;
        let ghost all = path_views(fewer@);
        let mut i: usize = 0;
        assert(all.take(0).len() == 0);
        while i < fewer.len()
            invariant
                i <= fewer@.len(),
                all == path_views(fewer@),
                self@ == without_paths(before, all.take(i as int)),
                distinct_paths(before) ==> self.wf(),
            decreases fewer@.len() - i,
        {
            proof {
                assert(all.take(i + 1).drop_last() =~= all.take(i as int));
                assert(all.take(i + 1).last() == fewer@[i as int]@);
            }
            self.remove(&fewer[i]);
            i = i + 1;
        }
        assert(all.take(i as int) == all);
    }

    /// Removes all paths.
    pub fn clear(&mut self)
        ensures
            final(self)@ == Seq::<Seq<u8>>::empty(),
            final(self).wf(),
    {
        self.paths = Vec::new();
        assert(self@ =~= Seq::<Seq<u8>>::empty());
    }

    /// The paths of the set.
    pub fn to_paths(&self) -> (r: Vec<LocalPath>)
        ensures
            path_views(r@) == self@,
    {
        copy_paths(&self.paths)
    }
}

/// A copy of a list of paths.
pub(crate) fn copy_paths(paths: &Vec<LocalPath>) -> (r: Vec<LocalPath>)
    ensures
        path_views(r@) == path_views(paths@),
{
    let ghost all = path_views(paths@);
    let mut r: Vec<LocalPath> = Vec::new();
    let mut i: usize = 0;
    assert(path_views(r@) =~= all.take(0));
    while i < paths.len()
        invariant
            i <= paths@.len(),
            all == path_views(paths@),
            path_views(r@) == all.take(i as int),
        decreases paths@.len() - i,
    {
        let ghost so_far = path_views(r@);
        let copy = paths[i].clone();
        r.push(copy);
        proof {
            assert(path_views(r@) =~= so_far.push(copy@));
            assert(all.take(i + 1) =~= all.take(i as int).push(all[i as int]));
        }
        i = i + 1;
    }
    assert(all.take(i as int) == all);
    r
}

proof fn lemma_filter_distinct(paths: Seq<Seq<u8>>, keep: spec_fn(Seq<u8>) -> bool)
    requires
        distinct_paths(paths),
    ensures
        distinct_paths(paths.filter(keep)),
    decreases paths.len(),
{
    reveal(Seq::filter);
    if paths.len() > 0 {
        let front = paths.drop_last();
        assert forall|i: int, j: int| 0 <= i < j < front.len() implies !same_path(
            #[trigger] front[i],
            #[trigger] front[j],
        ) by {
            assert(front[i] == paths[i] && front[j] == paths[j]);
        }
        lemma_filter_distinct(front, keep);
        crate::seqs::lemma_filter_members(front, keep);
        let kept = front.filter(keep);
        if keep(paths.last()) {
            let all = kept.push(paths.last());
            assert forall|i: int, j: int| 0 <= i < j < all.len() implies !same_path(
                #[trigger] all[i],
                #[trigger] all[j],
            ) by {
                assert(all[i] == kept[i]);
                if j < kept.len() {
                    assert(all[j] == kept[j]);
                } else {
                    assert(kept.contains(kept[i]));
                    assert(front.contains(kept[i]));
                    let k = choose|k: int| 0 <= k < front.len() && front[k] == kept[i];
                    assert(paths[k] == kept[i]);
                    assert(paths[paths.len() - 1] == all[j]);
                }
            }
        }
    }
}

/// A path that was removed is not there any more, and no other path is lost.
pub proof fn lemma_without_path(paths: Seq<Seq<u8>>, p: Seq<u8>, q: Seq<u8>)
    ensures
        has_path(without_path(paths, p), q) == (has_path(paths, q) && !same_path(p, q)),
{
    let keep = |x: Seq<u8>| !same_path(x, p);
    crate::seqs::lemma_filter_members(paths, keep);
    let left = paths.filter(keep);
    if has_path(left, q) {
        let i = choose|i: int| 0 <= i < left.len() && same_path(#[trigger] left[i], q);
        assert(left.contains(left[i]));
        assert(paths.contains(left[i]));
        let k = choose|k: int| 0 <= k < paths.len() && paths[k] == left[i];
        assert(same_path(paths[k], q));
    }
    if has_path(paths, q) && !same_path(p, q) {
        let k = choose|k: int| 0 <= k < paths.len() && same_path(#[trigger] paths[k], q);
        assert(paths.contains(paths[k]));
        assert(left.contains(paths[k]));
        let i = choose|i: int| 0 <= i < left.len() && left[i] == paths[k];
        assert(same_path(left[i], q));
    }
}

/// A path that was added is there, and no path is lost.
pub proof fn lemma_with_path(paths: Seq<Seq<u8>>, p: Seq<u8>, q: Seq<u8>)
    ensures
        has_path(with_path(paths, p), q) == (has_path(paths, q) || same_path(p, q)),
{
    let more = with_path(paths, p);
    if has_path(paths, q) {
        let i = choose|i: int| 0 <= i < paths.len() && same_path(#[trigger] paths[i], q);
        assert(same_path(more[i], q));
    }
    if same_path(p, q) {
        if has_path(paths, p) {
            let i = choose|i: int| 0 <= i < paths.len() && same_path(#[trigger] paths[i], p);
            assert(same_path(paths[i], q));
        } else {
            assert(same_path(more[paths.len() as int], q));
        }
    }
    if has_path(more, q) && !has_path(paths, p) {
        let i = choose|i: int| 0 <= i < more.len() && same_path(#[trigger] more[i], q);
        if i < paths.len() {
            assert(same_path(paths[i], q));
        }
    }
}

// ---------------------------------------------------------------------------
// What holds of local paths
// ---------------------------------------------------------------------------

/// A name that is joined to a directory's path lies in that directory, and the directory lies not in
/// it; no path counts as another than itself.
pub proof fn lemma_joined_lies_in(base: Seq<u8>, name: Seq<u8>)
    requires
        path::is_proper_name(name),
    ensures
        lies_in(joined_path(base, name), base),
        !lies_in(base, joined_path(base, name)),
        !same_path(joined_path(base, name), base),
        same_path(base, base),
{
    lemma_joined_name(base, name);
    let all = path::components(base).push(Component::Normal(name));
    assert(path::components(base).is_prefix_of(all));
    assert(all.len() > path::components(base).len());
}

/// A path lies in a directory exactly where the components of the directory's path come first in
/// its own; two paths that lie in each other are the same.
pub proof fn lemma_lies_in(a: Seq<u8>, b: Seq<u8>)
    ensures
        lies_in(a, b) && lies_in(b, a) <==> same_path(a, b),
        lies_in(a, b) <==> path::components(b).len() <= path::components(a).len() && forall|i: int|
            0 <= i < path::components(b).len() ==> #[trigger] path::components(b)[i]
                == path::components(a)[i],
{
    let x = path::components(a);
    let y = path::components(b);
    if lies_in(a, b) && lies_in(b, a) {
        assert(x =~= y);
    }
}

/// What is joined to a path stands behind it, with one separator between them where the path has none
/// at its end; an absolute path takes its place.
pub proof fn lemma_joined_path(base: Seq<u8>, tail: Seq<u8>)
    ensures
        tail.len() > 0 && tail[0] == 47 ==> joined_path(base, tail) == tail,
        !(tail.len() > 0 && tail[0] == 47) ==> {
            let all = joined_path(base, tail);
            let separated = base.len() == 0 || base.last() == 47;
            let n = base.len() + if separated {
                0int
            } else {
                1int
            };
            &&& all.len() == n + tail.len()
            &&& all.take(base.len() as int) == base
            &&& all.skip(n) == tail
            &&& !separated ==> all[base.len() as int] == 47
        },
{
    let all = joined_path(base, tail);
    let separated = base.len() == 0 || base.last() == 47;
    let n = base.len() + if separated {
        0int
    } else {
        1int
    };
    if !(tail.len() > 0 && tail[0] == 47) {
        assert(all.take(base.len() as int) =~= base);
        assert(all.skip(n) =~= tail);
    }
}

/// Two paths agree up to index `i`, where the first ends or has the smaller component.
pub open spec fn path_differs_at(a: Seq<Component<u8>>, b: Seq<Component<u8>>, i: int) -> bool {
    &&& 0 <= i <= a.len()
    &&& i < b.len()
    &&& forall|j: int| 0 <= j < i ==> #[trigger] a[j] == b[j]
    &&& i < a.len() ==> component_less(a[i], b[i])
}

/// A path comes before another exactly where it has the smaller component at their first difference,
/// or ends there.
pub proof fn lemma_path_less(a: Seq<Component<u8>>, b: Seq<Component<u8>>)
    ensures
        path_less(a, b) <==> exists|i: int| #[trigger] path_differs_at(a, b, i),
    decreases a.len(),
{
    if b.len() > 0 && a.len() > 0 {
        let a1 = a.drop_first();
        let b1 = b.drop_first();
        lemma_path_less(a1, b1);
        if component_less(a[0], b[0]) {
            assert(path_differs_at(a, b, 0));
        } else if path_less(a, b) {
            let i = choose|i: int| #[trigger] path_differs_at(a1, b1, i);
            assert forall|j: int| 0 <= j < i + 1 implies #[trigger] a[j] == b[j] by {
                if j > 0 {
                    assert(a1[j - 1] == b1[j - 1]);
                }
            }
            assert(path_differs_at(a, b, i + 1));
        }
        if exists|i: int| #[trigger] path_differs_at(a, b, i) {
            let i = choose|i: int| #[trigger] path_differs_at(a, b, i);
            if i > 0 {
                assert(a[0] == b[0]);
                assert forall|j: int| 0 <= j < i - 1 implies #[trigger] a1[j] == b1[j] by {
                    assert(a[j + 1] == b[j + 1]);
                }
                assert(path_differs_at(a1, b1, i - 1));
            }
        }
    } else if b.len() > 0 {
        assert(path_differs_at(a, b, 0));
    }
}

/// Names are ordered by their bytes, at the first difference or by their ends; the root comes before
/// the current directory, this before the parent directory, and names come last.
pub proof fn lemma_component_less(x: Seq<u8>, y: Seq<u8>)
    ensures
        component_less(Component::Normal(x), Component::Normal(y)) <==> exists|i: int|
            {
                &&& 0 <= i <= x.len()
                &&& i < y.len()
                &&& x.take(i) == #[trigger] y.take(i)
                &&& i < x.len() ==> x[i] < y[i]
            },
        component_less(Component::Root, Component::Current),
        component_less(Component::Current, Component::Parent),
        component_less(Component::Parent, Component::Normal(x)),
        component_less(Component::Root, Component::Normal(x)),
        component_less(Component::Current, Component::Normal(x)),
        component_less(Component::Root, Component::Parent),
        forall|c: Component<u8>| !(c is Normal) ==> !component_less(Component::Normal(x), c),
        forall|c: Component<u8>| !(c is Normal) ==> !#[trigger] component_less(c, c),
        !component_less(Component::Current, Component::Root),
        !component_less(Component::Parent, Component::Current),
        !component_less(Component::Parent, Component::Root),
{
    let a = name_key(x);
    let b = name_key(y);
    order::lemma_first_difference_decides(a, b);
    if exists|i: int| #[trigger] order::differs_at(a, b, i) {
        let i = choose|i: int| #[trigger] order::differs_at(a, b, i);
        assert forall|j: int| 0 <= j < i implies x[j] == y[j] by {
            assert(a[j] == b[j]);
        }
        assert(x.take(i) =~= y.take(i));
        if i < x.len() {
            assert(a[i] == x[i] as u32 && b[i] == y[i] as u32);
        }
    }
    if exists|i: int|
        {
            &&& 0 <= i <= x.len()
            &&& i < y.len()
            &&& x.take(i) == #[trigger] y.take(i)
            &&& i < x.len() ==> x[i] < y[i]
        } {
        let i = choose|i: int|
            {
                &&& 0 <= i <= x.len()
                &&& i < y.len()
                &&& x.take(i) == #[trigger] y.take(i)
                &&& i < x.len() ==> x[i] < y[i]
            };
        assert forall|j: int| 0 <= j < i implies #[trigger] a[j] == b[j] by {
            assert(x.take(i)[j] == y.take(i)[j]);
        }
        assert(order::differs_at(a, b, i));
    }
}

/// Marking several paths marks exactly these beside those that were marked, which keep their places.
pub proof fn lemma_with_paths(paths: Seq<Seq<u8>>, more: Seq<Seq<u8>>, q: Seq<u8>)
    ensures
        has_path(with_paths(paths, more), q) <==> has_path(paths, q) || has_path(more, q),
        paths.is_prefix_of(with_paths(paths, more)),
    decreases more.len(),
{
    if more.len() > 0 {
        let front = more.drop_last();
        lemma_with_paths(paths, front, q);
        lemma_with_path(with_paths(paths, front), more.last(), q);
        lemma_has_path_of_pushed(front, more.last(), q);
        assert(front.push(more.last()) =~= more);
    }
}

/// Unmarking several paths takes exactly these away.
pub proof fn lemma_without_paths(paths: Seq<Seq<u8>>, fewer: Seq<Seq<u8>>, q: Seq<u8>)
    ensures
        has_path(without_paths(paths, fewer), q) <==> has_path(paths, q) && !has_path(fewer, q),
    decreases fewer.len(),
{
    if fewer.len() > 0 {
        let front = fewer.drop_last();
        lemma_without_paths(paths, front, q);
        lemma_without_path(without_paths(paths, front), fewer.last(), q);
        lemma_has_path_of_pushed(front, fewer.last(), q);
        assert(front.push(fewer.last()) =~= fewer);
    }
}

proof fn lemma_has_path_of_pushed(paths: Seq<Seq<u8>>, p: Seq<u8>, q: Seq<u8>)
    ensures
        has_path(paths.push(p), q) <==> has_path(paths, q) || same_path(p, q),
{
    let more = paths.push(p);
    if has_path(paths, q) {
        let i = choose|i: int| 0 <= i < paths.len() && same_path(#[trigger] paths[i], q);
        assert(same_path(more[i], q));
    }
    if same_path(p, q) {
        assert(same_path(more[paths.len() as int], q));
    }
    if has_path(more, q) {
        let i = choose|i: int| 0 <= i < more.len() && same_path(#[trigger] more[i], q);
        if i < paths.len() {
            assert(same_path(paths[i], q));
        }
    }
}

/// A path is marked behind those that are marked, and only where it is not marked yet; those that
/// stay marked when one is unmarked keep their order.
pub proof fn lemma_marked_paths_keep_order(paths: Seq<Seq<u8>>, p: Seq<u8>)
    ensures
        has_path(paths, p) ==> with_path(paths, p) == paths,
        !has_path(paths, p) ==> with_path(paths, p) == paths + seq![p],
        crate::seqs::is_selection(
            paths,
            without_path(paths, p),
            |q: Seq<u8>| path::components(q) != path::components(p),
        ),
{
    let keep = |q: Seq<u8>| !same_path(q, p);
    crate::seqs::lemma_filter_selects(paths, keep);
    crate::seqs::lemma_selection_by(
        paths,
        without_path(paths, p),
        keep,
        |q: Seq<u8>| path::components(q) != path::components(p),
    );
    assert(paths.push(p) =~= paths + seq![p]);
}

/// A separator at the end of a path does not count.
pub proof fn lemma_last_separator(p: Seq<u8>)
    requires
        p.len() > 0,
    ensures
        same_path(p.push(47), p),
{
    let longer = p.push(47);
    assert(longer[0] == p[0]);
    if path::is_absolute(p) {
        let rest = p.drop_first();
        assert(longer.drop_first() =~= rest.push(47));
        if rest.len() > 0 {
            lemma_separator_at_end(rest, false);
        } else {
            let one = rest.push(47);
            assert(one[0] == 47);
            path::lemma_part_len_unique(one, 0);
            assert(one.take(0).len() == 0);
            lemma_no_components(one.skip(1), false);
            lemma_no_components(rest, false);
            assert(path::relative_components(one, false) =~= path::relative_components(rest, false));
        }
    } else {
        lemma_separator_at_end(p, true);
    }
}

/// What a part without a separator adds behind a path that is empty or ends in one.
proof fn lemma_part_behind_separator(s: Seq<u8>, part: Seq<u8>, first: bool)
    requires
        part.len() > 0,
        forall|i: int| 0 <= i < part.len() ==> #[trigger] part[i] != 47,
        s.len() > 0 ==> s.last() == 47,
    ensures
        path::relative_components(s + part, first) == path::relative_components(s, first)
            + path::part_component(part, first && s.len() == 0),
    decreases s.len(),
{
    let all = s + part;
    if s.len() == 0 {
        assert(all =~= part);
        path::lemma_part_len_unique(part, part.len() as int);
        assert(path::relative_components(s, first) + path::part_component(part, first)
            =~= path::part_component(part, first));
    } else {
        path::lemma_part_len(s);
        let n = path::part_len(s) as int;
        if n == s.len() {
            assert(!s[n - 1].slash());
        }
        assert forall|j: int| 0 <= j < n implies !(#[trigger] all[j]).slash() by {
            assert(all[j] == s[j]);
        }
        assert(all[n] == s[n]);
        path::lemma_part_len_unique(all, n);
        let rest = s.skip(n + 1);
        assert(all.take(n) =~= s.take(n));
        assert(all.skip(n + 1) =~= rest + part);
        if rest.len() > 0 {
            assert(rest.last() == s.last());
        }
        lemma_part_behind_separator(rest, part, false);
        let head = path::part_component(s.take(n), first);
        let tail = path::relative_components(rest, false);
        let own = path::part_component(part, false);
        assert(head + (tail + own) =~= (head + tail) + own);
    }
}

/// One full stop behind a path does not count, and two lead to the directory above. A path of one
/// full stop leads to the current directory.
pub proof fn lemma_joined_dots(base: Seq<u8>)
    ensures
        base.len() > 0 ==> same_path(joined_path(base, seq![46u8]), base),
        path::components(joined_path(base, seq![46u8, 46u8])) == path::components(base).push(
            Component::Parent,
        ),
        path::components(seq![46u8]) == seq![Component::<u8>::Current],
{
    let none = Seq::<u8>::empty();
    lemma_joined_part(base, seq![46u8]);
    lemma_joined_part(base, seq![46u8, 46u8]);
    assert(path::components(base) + Seq::<Component<u8>>::empty() =~= path::components(base));
    assert(path::components(base) + seq![Component::<u8>::Parent] =~= path::components(base).push(
        Component::Parent,
    ));
    lemma_part_behind_separator(none, seq![46u8], true);
    assert(none + seq![46u8] =~= seq![46u8]);
    assert(path::relative_components(none, true) =~= Seq::<Component<u8>>::empty());
    assert(Seq::<Component<u8>>::empty() + seq![Component::<u8>::Current] =~= seq![
        Component::<u8>::Current,
    ]);
}

proof fn lemma_joined_part(base: Seq<u8>, part: Seq<u8>)
    requires
        part.len() > 0,
        forall|i: int| 0 <= i < part.len() ==> #[trigger] part[i] != 47,
    ensures
        path::components(joined_path(base, part)) == path::components(base) + path::part_component(
            part,
            base.len() == 0,
        ),
{
    assert(part[0] != 47);
    let joined = joined_path(base, part);
    let dir = if base.len() > 0 && base.last() != 47 {
        base.push(47)
    } else {
        base
    };
    assert(joined =~= dir + part);
    if base.len() == 0 {
        lemma_part_behind_separator(base, part, true);
    } else {
        lemma_last_separator(base);
        assert(same_path(dir, base));
        assert(joined[0] == base[0] && dir[0] == base[0]);
        if path::is_absolute(base) {
            let rest = dir.drop_first();
            assert(joined.drop_first() =~= rest + part);
            if rest.len() > 0 {
                assert(rest.last() == dir.last());
            }
            lemma_part_behind_separator(rest, part, false);
            assert(path::components(joined) =~= path::components(dir) + path::part_component(
                part,
                false,
            ));
        } else {
            lemma_part_behind_separator(dir, part, true);
        }
    }
}

} // verus!
