//! The IPLD value tree.

use crate::cid::{Cid, CidView};
use crate::bytes::{bytes_lt, key_order, slice_to_vec};
use vstd::prelude::*;
use vstd::utf8::encode_utf8;

verus! {

/// What an IPLD value says.
pub enum IpldView {
    Null,
    Bool(bool),
    Integer(int),
    Float(u64),
    String(Seq<char>),
    Bytes(Seq<u8>),
    List(Seq<IpldView>),
    StringMap(Seq<(Seq<char>, IpldView)>),
    Link(CidView),
}

/// An IPLD value.
#[derive(Debug)]
pub enum Ipld {
    /// The absence of a value.
    Null,
    /// A boolean.
    Bool(bool),
    /// An integer.
    Integer(i128),
    /// A double precision float, as its IEEE-754 bits.
    Float(u64),
    /// A UTF-8 string.
    String(String),
    /// A byte string.
    Bytes(Vec<u8>),
    /// A list.
    List(Vec<Ipld>),
    /// A map from strings, as its entries in ascending order of their keys.
    StringMap(Vec<(String, Ipld)>),
    /// A link to another block.
    Link(Cid),
}

impl View for Ipld {
    type V = IpldView;

    /// What the value says.
    open spec fn view(&self) -> IpldView
        decreases self,
    {
        match self {
            Ipld::Null => IpldView::Null,
            Ipld::Bool(b) => IpldView::Bool(*b),
            Ipld::Integer(n) => IpldView::Integer(*n as int),
            Ipld::Float(x) => IpldView::Float(*x),
            Ipld::String(s) => IpldView::String(s@),
            Ipld::Bytes(b) => IpldView::Bytes(b@),
            Ipld::List(l) => IpldView::List(list_view(l@)),
            Ipld::StringMap(m) => IpldView::StringMap(map_view(m@)),
            Ipld::Link(c) => IpldView::Link(c@),
        }
    }
}

/// What the items of a list say, one by one.
pub open spec fn list_view(l: Seq<Ipld>) -> Seq<IpldView>
    decreases l,
{
    Seq::new(
        l.len(),
        |i: int|
            if 0 <= i < l.len() {
                l[i].view()
            } else {
                IpldView::Null
            },
    )
}

/// What the entries of a map say, one by one.
pub open spec fn map_view(m: Seq<(String, Ipld)>) -> Seq<(Seq<char>, IpldView)>
    decreases m,
{
    Seq::new(
        m.len(),
        |i: int|
            if 0 <= i < m.len() {
                (m[i].0@, m[i].1.view())
            } else {
                (Seq::empty(), IpldView::Null)
            },
    )
}

impl PartialEq for Ipld {
    fn eq(&self, other: &Self) -> (r: bool) {
        self.same(other)
    }
}

impl vstd::std_specs::cmp::PartialEqSpecImpl for Ipld {
    open spec fn obeys_eq_spec() -> bool {
        true
    }

    open spec fn eq_spec(&self, other: &Self) -> bool {
        self@ == other@
    }
}

impl Eq for Ipld {

}

impl Clone for Ipld {
    /// A copy that says the same.
    fn clone(&self) -> (res: Self)
        ensures
            res@ == self@,
        decreases self,
    {
        match self {
            Ipld::Null => Ipld::Null,
            Ipld::Bool(b) => Ipld::Bool(*b),
            Ipld::Integer(n) => Ipld::Integer(*n),
            Ipld::Float(x) => Ipld::Float(*x),
            Ipld::String(s) => Ipld::String(s.clone()),
            Ipld::Bytes(b) => Ipld::Bytes(slice_to_vec(b.as_slice())),
            Ipld::List(l) => {
                let mut out: Vec<Ipld> = Vec::new();
                let mut i: usize = 0;
                while i < l.len()
                    invariant
                        i <= l@.len(),
                        *self == Ipld::List(*l),
                        out@.len() == i,
                        forall|j: int| 0 <= j < i ==> out@[j]@ == l@[j]@,
                    decreases l@.len() - i,
                {
                    assert(decreases_to!(*l => l[i as int]));
                    assert(self->List_0 == *l);
                    assert(decreases_to!(*self => self->List_0));
                    let item = l[i].clone();
                    out.push(item);
                    i += 1;
                }
                assert(list_view(out@) =~= list_view(l@));
                Ipld::List(out)
            },
            Ipld::StringMap(m) => {
                let mut out: Vec<(String, Ipld)> = Vec::new();
                let mut i: usize = 0;
                while i < m.len()
                    invariant
                        i <= m@.len(),
                        *self == Ipld::StringMap(*m),
                        out@.len() == i,
                        forall|j: int|
                            0 <= j < i ==> out@[j].0@ == m@[j].0@ && out@[j].1@ == m@[j].1@,
                    decreases m@.len() - i,
                {
                    let key = m[i].0.clone();
                    assert(decreases_to!(*m => m[i as int]));
                    assert(self->StringMap_0 == *m);
                    assert(decreases_to!(*self => self->StringMap_0));
                    assert(decreases_to!(m[i as int] => m[i as int].1));
                    let value = m[i].1.clone();
                    out.push((key, value));
                    i += 1;
                }
                assert(map_view(out@) =~= map_view(m@));
                Ipld::StringMap(out)
            },
            Ipld::Link(c) => Ipld::Link(*c),
        }
    }
}

/// Whether the key of entry `i` comes before the key of the entry behind it,
/// in the order of their UTF-8 bytes.
pub open spec fn keys_ascend(m: Seq<(Seq<char>, IpldView)>, i: int) -> bool {
    bytes_lt(encode_utf8(m[i].0), encode_utf8(m[i + 1].0))
}

impl IpldView {
    /// Whether this is a value of the data model: the keys of every map in
    /// it ascend in the order of their UTF-8 bytes, so that none occurs
    /// twice, and every link in it holds a valid CID.
    pub open spec fn valid(self) -> bool
        decreases self, 0nat,
    {
        match self {
            IpldView::List(xs) => items_valid(xs),
            IpldView::StringMap(m) => entries_valid(m) && keys_ascending(m),
            IpldView::Link(c) => c.valid(64),
            _ => true,
        }
    }
}

/// Whether each item is a value of the data model.
pub open spec fn items_valid(xs: Seq<IpldView>) -> bool
    decreases xs, 1nat,
{
    forall|i: int| 0 <= i < xs.len() ==> (#[trigger] xs[i]).valid()
}

/// Whether each value of a map is a value of the data model.
pub open spec fn entries_valid(m: Seq<(Seq<char>, IpldView)>) -> bool
    decreases m, 1nat,
{
    forall|i: int| 0 <= i < m.len() ==> (#[trigger] m[i]).1.valid()
}

/// Whether the keys of a map ascend in the order of their UTF-8 bytes.
pub open spec fn keys_ascending(m: Seq<(Seq<char>, IpldView)>) -> bool {
    forall|i: int| 0 <= i < m.len() - 1 ==> #[trigger] keys_ascend(m, i)
}


/// Every sub-value of `v` in pre-order, `v` itself first: the items of a
/// list and the values of a map follow their container, each with its own
/// sub-values behind it. A link is a leaf.
pub open spec fn preorder(v: IpldView) -> Seq<IpldView>
    decreases v, 0nat, 0nat,
{
    match v {
        IpldView::List(xs) => seq![v] + preorder_list(xs, 0),
        IpldView::StringMap(m) => seq![v] + preorder_map(m, 0),
        _ => seq![v],
    }
}

/// The pre-order of the items of a list from index `from` on.
pub open spec fn preorder_list(xs: Seq<IpldView>, from: nat) -> Seq<IpldView>
    decreases xs, 1nat, xs.len() - from,
{
    if from >= xs.len() {
        Seq::empty()
    } else {
        preorder(xs[from as int]) + preorder_list(xs, from + 1)
    }
}

/// The pre-order of the values of a map from entry `from` on.
pub open spec fn preorder_map(m: Seq<(Seq<char>, IpldView)>, from: nat) -> Seq<IpldView>
    decreases m, 1nat, m.len() - from,
{
    if from >= m.len() {
        Seq::empty()
    } else {
        preorder(m[from as int].1) + preorder_map(m, from + 1)
    }
}

/// The CIDs of the links among `s`, in the order of `s`.
pub open spec fn links(s: Seq<IpldView>) -> Seq<CidView>
    decreases s.len(),
{
    if s.len() == 0 {
        Seq::empty()
    } else {
        match s[0] {
            IpldView::Link(c) => seq![c] + links(s.drop_first()),
            _ => links(s.drop_first()),
        }
    }
}

/// What the CIDs of a collection say, one by one.
pub open spec fn cid_views(s: Seq<Cid>) -> Seq<CidView> {
    Seq::new(s.len(), |i: int| s[i]@)
}

/// A CID is among the links of `s` exactly when a link to it is among `s`.
pub proof fn lemma_links_contains(s: Seq<IpldView>, c: CidView)
    ensures
        links(s).contains(c) <==> s.contains(IpldView::Link(c)),
    decreases s.len(),
{
    if s.len() > 0 {
        let t = s.drop_first();
        lemma_links_contains(t, c);
        if s.contains(IpldView::Link(c)) {
            let i = choose|i: int| 0 <= i < s.len() && s[i] == IpldView::Link(c);
            if i > 0 {
                assert(t[i - 1] == s[i]);
                assert(t.contains(IpldView::Link(c)));
            }
        }
        if t.contains(IpldView::Link(c)) {
            let i = choose|i: int| 0 <= i < t.len() && t[i] == IpldView::Link(c);
            assert(s[i + 1] == t[i]);
        }
        match s[0] {
            IpldView::Link(d) => {
                let head = seq![d];
                let tail = links(t);
                if links(s).contains(c) {
                    let i = choose|i: int| 0 <= i < links(s).len() && links(s)[i] == c;
                    if i > 0 {
                        assert(tail[i - 1] == c);
                    } else {
                        assert(s[0] == IpldView::Link(c));
                    }
                }
                if tail.contains(c) {
                    let i = choose|i: int| 0 <= i < tail.len() && tail[i] == c;
                    assert((head + tail)[i + 1] == c);
                }
                if d == c {
                    assert((head + tail)[0] == c);
                }
            },
            _ => {},
        }
    }
}

/// One level of a traversal: what is left of a container, or the root
/// before it was handed out.
#[derive(Clone, Copy)]
enum Frame<'a> {
    Root(&'a Ipld),
    Items(&'a Vec<Ipld>, usize),
    Entries(&'a Vec<(String, Ipld)>, usize),
}

impl<'a> Frame<'a> {
    /// What this level has yet to hand out, sub-values included.
    spec fn rest(self) -> Seq<IpldView> {
        match self {
            Frame::Root(x) => preorder(x@),
            Frame::Items(l, i) => preorder_list(list_view(l@), i as nat),
            Frame::Entries(m, i) => preorder_map(map_view(m@), i as nat),
        }
    }
}

/// What the first `n` levels of a stack have yet to hand out, the innermost
/// level first.
spec fn stack_rest(stack: Seq<Frame<'_>>, n: nat) -> Seq<IpldView>
    decreases n,
{
    if n == 0 || n > stack.len() {
        Seq::empty()
    } else {
        stack[n - 1].rest() + stack_rest(stack, (n - 1) as nat)
    }
}

/// Stacks that agree on their first `n` levels have the same to hand out
/// from those.
proof fn lemma_stack_rest_same(a: Seq<Frame<'_>>, b: Seq<Frame<'_>>, n: nat)
    requires
        n <= a.len(),
        n <= b.len(),
        forall|i: int| 0 <= i < n ==> a[i] == b[i],
    ensures
        stack_rest(a, n) == stack_rest(b, n),
    decreases n,
{
    if n > 0 {
        lemma_stack_rest_same(a, b, (n - 1) as nat);
    }
}

/// A traversal of a value in pre-order.
pub struct IpldIter<'a> {
    stack: Vec<Frame<'a>>,
}

impl<'a> IpldIter<'a> {
    /// What the traversal has yet to hand out, in order.
    pub closed spec fn remaining(&self) -> Seq<IpldView> {
        stack_rest(self.stack@, self.stack@.len())
    }

    /// Enters `x` where it is a container: its items or values come next.
    fn descend(&mut self, x: &'a Ipld)
        ensures
            seq![x@] + final(self).remaining() == preorder(x@) + old(self).remaining(),
    {
        let ghost before = self.stack@;
        match x {
            Ipld::List(l) => {
                self.stack.push(Frame::Items(l, 0));
                proof {
                    lemma_stack_rest_same(before, self.stack@, before.len());
                    assert(preorder(x@) + old(self).remaining() =~= seq![x@] + self.remaining());
                }
            },
            Ipld::StringMap(m) => {
                self.stack.push(Frame::Entries(m, 0));
                proof {
                    lemma_stack_rest_same(before, self.stack@, before.len());
                    assert(preorder(x@) + old(self).remaining() =~= seq![x@] + self.remaining());
                }
            },
            _ => {
                assert(preorder(x@) + old(self).remaining() =~= seq![x@] + self.remaining());
            },
        }
    }

    /// Hands out the next sub-value, or `None` when the traversal is done.
    pub fn next(&mut self) -> (res: Option<&'a Ipld>)
        ensures
            match res {
                Some(x) => old(self).remaining().len() > 0 && x@ == old(self).remaining()[0]
                    && final(self).remaining() == old(self).remaining().drop_first(),
                None => old(self).remaining().len() == 0 && final(self).remaining().len() == 0,
            },
    {
        loop
            invariant
                self.remaining() == old(self).remaining(),
            decreases self.stack@.len(),
        {
            let n = self.stack.len();
            if n == 0 {
                return None;
            }
            let ghost before = self.stack@;
            let ghost below = stack_rest(before, (n - 1) as nat);
            let frame = self.stack[n - 1];
            match frame {
                Frame::Root(x) => {
                    self.stack.pop();
                    proof {
                        lemma_stack_rest_same(before, self.stack@, (n - 1) as nat);
                    }
                    self.descend(x);
                    proof {
                        let now = self.remaining();
                        assert((seq![x@] + now).drop_first() =~= now);
                        assert((seq![x@] + now)[0] == x@);
                    }
                    return Some(x);
                },
                Frame::Items(l, i) => {
                    if i < l.len() {
                        let x = &l[i];
                        self.stack.set(n - 1, Frame::Items(l, i + 1));
                        proof {
                            lemma_stack_rest_same(before, self.stack@, (n - 1) as nat);
                            assert(list_view(l@)[i as int] == x@);
                        }
                        let ghost mid = self.remaining();
                        self.descend(x);
                        proof {
                            let now = self.remaining();
                            assert(old(self).remaining() =~= preorder(x@) + mid);
                            assert((seq![x@] + now).drop_first() =~= now);
                            assert((seq![x@] + now)[0] == x@);
                        }
                        return Some(x);
                    } else {
                        self.stack.pop();
                        proof {
                            lemma_stack_rest_same(before, self.stack@, (n - 1) as nat);
                            assert(frame.rest() =~= Seq::<IpldView>::empty());
                            assert(frame.rest() + below =~= below);
                        }
                    }
                },
                Frame::Entries(m, i) => {
                    if i < m.len() {
                        let x = &m[i].1;
                        self.stack.set(n - 1, Frame::Entries(m, i + 1));
                        proof {
                            lemma_stack_rest_same(before, self.stack@, (n - 1) as nat);
                            assert(map_view(m@)[i as int].1 == x@);
                        }
                        let ghost mid = self.remaining();
                        self.descend(x);
                        proof {
                            let now = self.remaining();
                            assert(old(self).remaining() =~= preorder(x@) + mid);
                            assert((seq![x@] + now).drop_first() =~= now);
                            assert((seq![x@] + now)[0] == x@);
                        }
                        return Some(x);
                    } else {
                        self.stack.pop();
                        proof {
                            lemma_stack_rest_same(before, self.stack@, (n - 1) as nat);
                            assert(frame.rest() =~= Seq::<IpldView>::empty());
                            assert(frame.rest() + below =~= below);
                        }
                    }
                },
            }
        }
    }
}

/// The index at which an entry with the key `key` stands among `m` or is to
/// stand: the first index from `from` on whose key does not come before
/// `key`.
pub open spec fn key_rank(m: Seq<(Seq<char>, IpldView)>, key: Seq<char>, from: nat) -> nat
    decreases m.len() - from,
{
    if from >= m.len() || !bytes_lt(encode_utf8(m[from as int].0), encode_utf8(key)) {
        from
    } else {
        key_rank(m, key, from + 1)
    }
}

/// The entries `m` with `key` bound to `value`: in place of the entry at the
/// key's rank where that has the key, and else before it.
pub open spec fn map_inserted(m: Seq<(Seq<char>, IpldView)>, key: Seq<char>, value: IpldView) -> Seq<
    (Seq<char>, IpldView),
> {
    let i = key_rank(m, key, 0) as int;
    if i < m.len() && m[i].0 == key {
        m.update(i, (key, value))
    } else {
        m.insert(i, (key, value))
    }
}

impl Ipld {
    /// Whether this is a value of the data model: whether the keys of every
    /// map in it ascend.
    pub fn is_valid(&self) -> (r: bool)
        ensures
            r == self@.valid(),
        decreases self,
    {
        match self {
            Ipld::List(l) => {
                let ghost xs = list_view(l@);
                let mut i: usize = 0;
                while i < l.len()
                    invariant
                        i <= l@.len(),
                        *self == Ipld::List(*l),
                        xs == list_view(l@),
                        forall|j: int| 0 <= j < i ==> (#[trigger] xs[j]).valid(),
                    decreases l@.len() - i,
                {
                    assert(decreases_to!(*l => l[i as int]));
                    assert(self->List_0 == *l);
                    assert(decreases_to!(*self => self->List_0));
                    if !l[i].is_valid() {
                        assert(!xs[i as int].valid());
                        return false;
                    }
                    i += 1;
                }
                true
            },
            Ipld::StringMap(m) => {
                let ghost es = map_view(m@);
                let mut i: usize = 0;
                while i < m.len()
                    invariant
                        i <= m@.len(),
                        *self == Ipld::StringMap(*m),
                        es == map_view(m@),
                        forall|j: int| 0 <= j < i ==> (#[trigger] es[j]).1.valid(),
                        forall|j: int| 0 <= j < i - 1 ==> #[trigger] keys_ascend(es, j),
                    decreases m@.len() - i,
                {
                    assert(decreases_to!(*m => m[i as int]));
                    assert(self->StringMap_0 == *m);
                    assert(decreases_to!(*self => self->StringMap_0));
                    assert(decreases_to!(m[i as int] => m[i as int].1));
                    if i > 0 {
                        let order = key_order(
                            m[i - 1].0.as_str().as_bytes(),
                            m[i].0.as_str().as_bytes(),
                        );
                        assert(es[i - 1].0 == m@[i - 1].0@ && es[i as int].0 == m@[i as int].0@);
                        if order != -1 {
                            assert(!keys_ascend(es, i - 1));
                            return false;
                        }
                        assert(keys_ascend(es, i - 1));
                    }
                    if !m[i].1.is_valid() {
                        assert(!es[i as int].1.valid());
                        return false;
                    }
                    i += 1;
                }
                true
            },
            Ipld::Link(c) => {
                let _ = c.hash();
                true
            },
            _ => true,
        }
    }

    /// Whether two values say the same: they are of the same kind and hold
    /// the same, a float by its bits, a list item by item, a map entry by
    /// entry.
    pub fn same(&self, other: &Self) -> (r: bool)
        ensures
            r == (self@ == other@),
        decreases self,
    {
        match (self, other) {
            (Ipld::Null, Ipld::Null) => true,
            (Ipld::Bool(a), Ipld::Bool(b)) => *a == *b,
            (Ipld::Integer(a), Ipld::Integer(b)) => *a == *b,
            (Ipld::Float(a), Ipld::Float(b)) => *a == *b,
            (Ipld::String(a), Ipld::String(b)) => *a == *b,
            (Ipld::Bytes(a), Ipld::Bytes(b)) => key_order(a.as_slice(), b.as_slice()) == 0,
            (Ipld::Link(a), Ipld::Link(b)) => a.same(b),
            (Ipld::List(a), Ipld::List(b)) => {
                let ghost xs = list_view(a@);
                let ghost ys = list_view(b@);
                if a.len() != b.len() {
                    assert(xs.len() != ys.len());
                    return false;
                }
                let mut i: usize = 0;
                while i < a.len()
                    invariant
                        i <= a@.len() == b@.len(),
                        *self == Ipld::List(*a),
                        *other == Ipld::List(*b),
                        xs == list_view(a@),
                        ys == list_view(b@),
                        forall|j: int| 0 <= j < i ==> xs[j] == ys[j],
                    decreases a@.len() - i,
                {
                    assert(decreases_to!(*a => a[i as int]));
                    assert(self->List_0 == *a);
                    assert(decreases_to!(*self => self->List_0));
                    if !a[i].same(&b[i]) {
                        assert(xs[i as int] != ys[i as int]);
                        return false;
                    }
                    i += 1;
                }
                assert(xs =~= ys);
                true
            },
            (Ipld::StringMap(a), Ipld::StringMap(b)) => {
                let ghost xs = map_view(a@);
                let ghost ys = map_view(b@);
                if a.len() != b.len() {
                    assert(xs.len() != ys.len());
                    return false;
                }
                let mut i: usize = 0;
                while i < a.len()
                    invariant
                        i <= a@.len() == b@.len(),
                        *self == Ipld::StringMap(*a),
                        *other == Ipld::StringMap(*b),
                        xs == map_view(a@),
                        ys == map_view(b@),
                        forall|j: int| 0 <= j < i ==> xs[j] == ys[j],
                    decreases a@.len() - i,
                {
                    assert(decreases_to!(*a => a[i as int]));
                    assert(self->StringMap_0 == *a);
                    assert(decreases_to!(*self => self->StringMap_0));
                    assert(decreases_to!(a[i as int] => a[i as int].1));
                    if a[i].0 != b[i].0 || !a[i].1.same(&b[i].1) {
                        assert(xs[i as int] != ys[i as int]);
                        return false;
                    }
                    i += 1;
                }
                assert(xs =~= ys);
                true
            },
            _ => false,
        }
    }

    /// Binds `key` to `value` in the entries of a map and returns the value
    /// that the key was bound to, if it was bound. Where the keys ascended,
    /// they still do.
    pub fn map_insert(entries: &mut Vec<(String, Ipld)>, key: String, value: Ipld) -> (had: Option<
        Ipld,
    >)
        ensures
            map_view(final(entries)@) == map_inserted(map_view(old(entries)@), key@, value@),
            keys_ascending(map_view(old(entries)@)) ==> keys_ascending(map_view(final(entries)@)),
            ({
                let m = map_view(old(entries)@);
                let i = key_rank(m, key@, 0) as int;
                match had {
                    Some(v) => i < m.len() && m[i].0 == key@ && v@ == m[i].1,
                    None => !(i < m.len() && m[i].0 == key@),
                }
            }),
    {
        let ghost m = map_view(entries@);
        let ghost k = encode_utf8(key@);
        let mut i: usize = 0;
        let mut order: i8 = 1;
        while i < entries.len()
            invariant_except_break
                order == 1,
            invariant
                i <= entries@.len(),
                entries@ == old(entries)@,
                m == map_view(entries@),
                k == encode_utf8(key@),
                key_rank(m, key@, 0) == key_rank(m, key@, i as nat),
                forall|j: int| 0 <= j < i ==> bytes_lt(encode_utf8((#[trigger] m[j]).0), k),
            ensures
                i <= entries@.len(),
                entries@ == old(entries)@,
                key_rank(m, key@, 0) == i,
                forall|j: int| 0 <= j < i ==> bytes_lt(encode_utf8((#[trigger] m[j]).0), k),
                i < entries@.len() ==> (order == 0 || order == 1) && (order == 0 <==> encode_utf8(
                    m[i as int].0,
                ) == k) && (order == 1 <==> bytes_lt(k, encode_utf8(m[i as int].0))),
            decreases entries@.len() - i,
        {
            assert(m[i as int].0 == entries@[i as int].0@);
            let o = key_order(entries[i].0.as_str().as_bytes(), key.as_str().as_bytes());
            if o != -1 {
                order = o;
                break ;
            }
            i += 1;
        }
        proof {
            if i < entries@.len() {
                vstd::utf8::encode_utf8_decode_utf8(m[i as int].0);
                vstd::utf8::encode_utf8_decode_utf8(key@);
            }
        }
        let ghost entry = (key@, value@);
        if i < entries.len() && order == 0 {
            let (_, v) = entries.remove(i);
            entries.insert(i, (key, value));
            proof {
                let now = map_view(entries@);
                assert(now =~= m.update(i as int, entry));
                if keys_ascending(m) {
                    assert forall|j: int| 0 <= j < now.len() - 1 implies #[trigger] keys_ascend(
                        now,
                        j,
                    ) by {
                        assert(keys_ascend(m, j));
                    }
                }
            }
            Some(v)
        } else {
            entries.insert(i, (key, value));
            proof {
                let now = map_view(entries@);
                assert(now =~= m.insert(i as int, entry));
                if keys_ascending(m) {
                    assert forall|j: int| 0 <= j < now.len() - 1 implies #[trigger] keys_ascend(
                        now,
                        j,
                    ) by {
                        if j < i - 1 {
                            assert(keys_ascend(m, j));
                        } else if j == i - 1 {
                            assert(bytes_lt(encode_utf8(m[j].0), k));
                        } else if j == i {
                        } else {
                            assert(keys_ascend(m, j - 1));
                        }
                    }
                }
            }
            None
        }
    }

    /// A traversal of every sub-value in pre-order, this value first.
    pub fn iter(&self) -> (it: IpldIter<'_>)
        ensures
            it.remaining() == preorder(self@),
    {
        let mut stack: Vec<Frame<'_>> = Vec::new();
        stack.push(Frame::Root(self));
        let it = IpldIter { stack };
        assert(it.remaining() =~= preorder(self@)) by {
            assert(stack_rest(it.stack@, 0) =~= Seq::<IpldView>::empty());
        }
        it
    }

    /// Appends to `set` the CID of every link among the sub-values, in
    /// pre-order.
    pub fn references(&self, set: &mut Vec<Cid>)
        ensures
            cid_views(final(set)@) == cid_views(old(set)@) + links(preorder(self@)),
    {
        let mut it = self.iter();
        assert(cid_views(set@) + links(it.remaining()) =~= cid_views(old(set)@) + links(
            preorder(self@),
        ));
        loop
            invariant
                cid_views(set@) + links(it.remaining()) == cid_views(old(set)@) + links(
                    preorder(self@),
                ),
            ensures
                cid_views(set@) == cid_views(old(set)@) + links(preorder(self@)),
            decreases it.remaining().len(),
        {
            let ghost before = it.remaining();
            let ghost had = cid_views(set@);
            match it.next() {
                Some(ipld) => {
                    if let Ipld::Link(cid) = ipld {
                        set.push(*cid);
                        assert(cid_views(set@) =~= had + seq![cid@]);
                        assert(links(before) == seq![cid@] + links(before.drop_first()));
                        assert(cid_views(set@) + links(it.remaining()) =~= had + links(before));
                    } else {
                        assert(links(before) == links(before.drop_first()));
                    }
                },
                None => {
                    assert(links(before) =~= Seq::<CidView>::empty());
                    assert(cid_views(set@) + links(before) =~= cid_views(set@));
                    break ;
                },
            }
        }
    }
}

} // verus!
