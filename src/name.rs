use vstd::prelude::*;

verus! {

/// The labels of a domain name, from the root down (`com`, `example`, `www`).
pub type Labels = Seq<Seq<char>>;

/// `a` names `q` itself or one of the zones above it.
pub open spec fn is_ancestor_or_self(a: Labels, q: Labels) -> bool {
    a.len() <= q.len() && q.subrange(0, a.len() as int) == a
}

/// `a` names one of the zones strictly above `q`.
pub open spec fn is_strict_ancestor(a: Labels, q: Labels) -> bool {
    is_ancestor_or_self(a, q) && a.len() < q.len()
}

/// The parent zone of `q`; the root is its own parent.
pub open spec fn parent(q: Labels) -> Labels {
    if q.len() == 0 {
        q
    } else {
        q.subrange(0, q.len() - 1)
    }
}

pub proof fn lemma_ancestor_trans(a: Labels, b: Labels, c: Labels)
    requires
        is_ancestor_or_self(a, b),
        is_ancestor_or_self(b, c),
    ensures
        is_ancestor_or_self(a, c),
{
    assert(c.subrange(0, a.len() as int) =~= b.subrange(0, a.len() as int));
}

pub proof fn lemma_ancestors_nest(a: Labels, b: Labels, c: Labels)
    requires
        is_ancestor_or_self(a, c),
        is_ancestor_or_self(b, c),
        a.len() <= b.len(),
    ensures
        is_ancestor_or_self(a, b),
{
    assert(b.subrange(0, a.len() as int) =~= c.subrange(0, a.len() as int));
}

pub proof fn lemma_strict_ancestor_of_parent(a: Labels, q: Labels)
    requires
        is_ancestor_or_self(a, q),
        a.len() < q.len(),
    ensures
        is_ancestor_or_self(a, parent(q)),
        is_ancestor_or_self(parent(q), q),
{
    assert(parent(q).subrange(0, a.len() as int) =~= q.subrange(0, a.len() as int));
    assert(q.subrange(0, parent(q).len() as int) =~= parent(q));
}

pub proof fn lemma_ancestor_self(a: Labels)
    ensures
        is_ancestor_or_self(a, a),
{
    assert(a.subrange(0, a.len() as int) =~= a);
}

pub proof fn lemma_same_length_ancestor(a: Labels, q: Labels)
    requires
        is_ancestor_or_self(a, q),
        a.len() == q.len(),
    ensures
        a == q,
{
    assert(q.subrange(0, a.len() as int) =~= q);
}

/// Labels written leaf first, as in `www.example.com`, turned root first.
pub open spec fn root_first(written: Seq<String>) -> Labels {
    Seq::new(written.len(), |i: int| written[written.len() - 1 - i]@)
}

/// A domain name. Names order by their structure: a zone comes before the
/// names below it.
#[derive(Debug, PartialEq, Eq, Hash)]
pub struct WildcardName {
    labels: Vec<String>,
}

impl View for WildcardName {
    type V = Labels;

    closed spec fn view(&self) -> Labels {
        self.labels@.map_values(|l: String| l@)
    }
}

impl WildcardName {
    /// The name whose labels are `labels`, written leaf first.
    pub fn from_labels(labels: Vec<String>) -> (r: WildcardName)
        ensures
            r@ == root_first(labels@),
    {
        let mut out: Vec<String> = Vec::new();
        let n = labels.len();
        let mut k: usize = 0;
        while k < n
            invariant
                n == labels@.len(),
                k <= n,
                out@.len() == k,
                forall|j: int| 0 <= j < k ==> out@[j]@ == labels@[n - 1 - j]@,
            decreases n - k,
        {
            out.push(labels[n - 1 - k].clone());
            k = k + 1;
        }
        let r = WildcardName { labels: out };
        assert(r@ =~= root_first(labels@));
        r
    }

    /// The root name, with no label.
    pub fn root() -> (r: WildcardName)
        ensures
            r@.len() == 0,
    {
        let r = WildcardName { labels: Vec::new() };
        assert(r@ =~= Seq::<Seq<char>>::empty());
        r
    }

    /// The number of labels.
    pub fn label_count(&self) -> (r: usize)
        ensures
            r == self@.len(),
    {
        self.labels.len()
    }

    /// A copy of this name.
    pub fn duplicate(&self) -> (r: WildcardName)
        ensures
            r@ == self@,
    {
        let mut out: Vec<String> = Vec::new();
        let mut k: usize = 0;
        while k < self.labels.len()
            invariant
                k <= self.labels@.len(),
                out@.len() == k,
                forall|j: int| 0 <= j < k ==> out@[j]@ == self.labels@[j]@,
            decreases self.labels@.len() - k,
        {
            out.push(self.labels[k].clone());
            k = k + 1;
        }
        let r = WildcardName { labels: out };
        assert(r@ =~= self@);
        r
    }

    /// The name of the parent zone (the root stays the root).
    pub fn base_name(&self) -> (r: WildcardName)
        ensures
            r@ == parent(self@),
    {
        let n = self.labels.len();
        let stop: usize = if n == 0 { 0 } else { n - 1 };
        let mut out: Vec<String> = Vec::new();
        let mut k: usize = 0;
        while k < stop
            invariant
                stop <= n,
                n == self.labels@.len(),
                k <= stop,
                out@.len() == k,
                forall|j: int| 0 <= j < k ==> out@[j]@ == self.labels@[j]@,
            decreases stop - k,
        {
            out.push(self.labels[k].clone());
            k = k + 1;
        }
        let r = WildcardName { labels: out };
        assert(r@ =~= parent(self@));
        r
    }

    /// Whether the first `len` labels of the two names agree.
    fn same_prefix(&self, other: &WildcardName, len: usize) -> (r: bool)
        requires
            len <= self@.len(),
            len <= other@.len(),
        ensures
            r == (self@.subrange(0, len as int) == other@.subrange(0, len as int)),
    {
        let mut k: usize = 0;
        while k < len
            invariant
                len <= self@.len(),
                len <= other@.len(),
                k <= len,
                forall|j: int| 0 <= j < k ==> self@[j] == other@[j],
            decreases len - k,
        {
            if self.labels[k] != other.labels[k] {
                assert(self@.subrange(0, len as int)[k as int] != other@.subrange(0, len as int)[k as int]);
                return false;
            }
            k = k + 1;
        }
        assert(self@.subrange(0, len as int) =~= other@.subrange(0, len as int));
        true
    }

    /// Whether the two names are the same name.
    pub fn same_name(&self, other: &WildcardName) -> (r: bool)
        ensures
            r == (self@ == other@),
    {
        if self.labels.len() != other.labels.len() {
            return false;
        }
        let r = self.same_prefix(other, self.labels.len());
        assert(self@.subrange(0, self@.len() as int) =~= self@);
        assert(other@.subrange(0, other@.len() as int) =~= other@);
        r
    }

    /// Whether this name is `q` or a zone above it.
    pub fn is_ancestor_or_self_of(&self, q: &WildcardName) -> (r: bool)
        ensures
            r == is_ancestor_or_self(self@, q@),
    {
        if self.labels.len() > q.labels.len() {
            return false;
        }
        let r = q.same_prefix(self, self.labels.len());
        assert(self@.subrange(0, self@.len() as int) =~= self@);
        r
    }

    /// The keys under which a trie stores this name: the name itself, then
    /// each zone above it, ending with the root.
    pub fn trie_keys(&self) -> (r: Vec<WildcardName>)
        ensures
            r@.len() == self@.len() + 1,
            forall|i: int| 0 <= i < r@.len() ==> #[trigger] r@[i]@ == self@.subrange(0, self@.len() - i),
    {
        let n = self.labels.len();
        let mut keys: Vec<WildcardName> = Vec::new();
        let mut cur = self.duplicate();
        let mut i: usize = 0;
        while i < n
            invariant
                n == self@.len(),
                i <= n,
                keys@.len() == i,
                cur@ == self@.subrange(0, n - i),
                forall|j: int| 0 <= j < i ==> #[trigger] keys@[j]@ == self@.subrange(0, n - j),
            decreases n - i,
        {
            let next = cur.base_name();
            assert(next@ =~= self@.subrange(0, n - i - 1));
            keys.push(cur);
            cur = next;
            i = i + 1;
        }
        keys.push(cur);
        keys
    }
}

} // verus!
