use vstd::prelude::*;

verus! {

/// The key under which a block is stored.
///
/// Identifiers of different variants are never equal, even where they
/// print alike.
#[derive(Debug, PartialEq, Eq, Hash, PartialOrd, Ord)]
pub enum Identifier {
    String(String),
    U64(u64),
    Bytes(Vec<u8>),
    Path(Vec<Identifier>),
}

/// The mathematical value of an [`Identifier`].
pub enum IdentifierView {
    Str(Seq<char>),
    U64(u64),
    Bytes(Seq<u8>),
    Path(Seq<IdentifierView>),
}

/// The value of each identifier of `s`, in order.
pub open spec fn ids_view(s: Seq<Identifier>) -> Seq<IdentifierView>
    decreases s,
{
    if s.len() == 0 {
        Seq::empty()
    } else {
        ids_view(s.subrange(0, s.len() - 1)).push(id_view(s[s.len() - 1]))
    }
}

/// The value of one identifier.
pub open spec fn id_view(id: Identifier) -> IdentifierView
    decreases id,
{
    match id {
        Identifier::String(s) => IdentifierView::Str(s@),
        Identifier::U64(n) => IdentifierView::U64(n),
        Identifier::Bytes(b) => IdentifierView::Bytes(b@),
        Identifier::Path(p) => IdentifierView::Path(ids_view(p@)),
    }
}

impl View for Identifier {
    type V = IdentifierView;

    open spec fn view(&self) -> IdentifierView {
        id_view(*self)
    }
}

pub proof fn lemma_ids_view(s: Seq<Identifier>)
    ensures
        ids_view(s).len() == s.len(),
        forall|i: int| 0 <= i < s.len() ==> #[trigger] ids_view(s)[i] == id_view(s[i]),
    decreases s.len(),
{
    if s.len() > 0 {
        lemma_ids_view(s.subrange(0, s.len() - 1));
        assert forall|i: int| 0 <= i < s.len() implies #[trigger] ids_view(s)[i] == id_view(s[i]) by {
            if i < s.len() - 1 {
                assert(s.subrange(0, s.len() - 1)[i] == s[i]);
            }
        }
    }
}

fn bytes_equal(a: &Vec<u8>, b: &Vec<u8>) -> (r: bool)
    ensures
        r == (a@ == b@),
{
    if a.len() != b.len() {
        return false;
    }
    let mut i: usize = 0;
    while i < a.len()
        invariant
            a.len() == b.len(),
            0 <= i <= a.len(),
            forall|j: int| 0 <= j < i ==> a@[j] == b@[j],
        decreases a.len() - i,
    {
        if a[i] != b[i] {
            return false;
        }
        i = i + 1;
    }
    assert(a@ =~= b@);
    true
}

impl Identifier {
    /// Structural equality: same variant and equal payloads.
    pub fn equals(&self, other: &Identifier) -> (r: bool)
        ensures
            r == (self@ == other@),
        decreases self,
    {
        match self {
            Identifier::String(a) => match other {
                Identifier::String(b) => String::eq(a, b),
                _ => false,
            },
            Identifier::U64(a) => match other {
                Identifier::U64(b) => *a == *b,
                _ => false,
            },
            Identifier::Bytes(a) => match other {
                Identifier::Bytes(b) => bytes_equal(a, b),
                _ => false,
            },
            Identifier::Path(a) => match other {
                Identifier::Path(b) => Self::paths_equal(a, b),
                _ => false,
            },
        }
    }

    fn paths_equal(a: &Vec<Identifier>, b: &Vec<Identifier>) -> (r: bool)
        ensures
            r == (ids_view(a@) == ids_view(b@)),
        decreases a,
    {
        proof {
            lemma_ids_view(a@);
            lemma_ids_view(b@);
        }
        if a.len() != b.len() {
            return false;
        }
        let mut i: usize = 0;
        while i < a.len()
            invariant
                a.len() == b.len(),
                0 <= i <= a.len(),
                ids_view(a@).len() == a.len(),
                ids_view(b@).len() == b.len(),
                forall|j: int| 0 <= j < a.len() ==> #[trigger] ids_view(a@)[j] == id_view(a@[j]),
                forall|j: int| 0 <= j < b.len() ==> #[trigger] ids_view(b@)[j] == id_view(b@[j]),
                forall|j: int| 0 <= j < i ==> ids_view(a@)[j] == ids_view(b@)[j],
            decreases a.len() - i,
        {
            proof {
                assert(decreases_to!(a => a@));
                assert(decreases_to!(a@ => a@[i as int]));
            }
            if !a[i].equals(&b[i]) {
                assert(ids_view(a@)[i as int] != ids_view(b@)[i as int]);
                return false;
            }
            i = i + 1;
        }
        assert(ids_view(a@) =~= ids_view(b@));
        true
    }

    /// A copy with the same value.
    pub fn duplicate(&self) -> (r: Identifier)
        ensures
            r@ == self@,
        decreases self,
    {
        match self {
            Identifier::String(s) => Identifier::String(s.clone()),
            Identifier::U64(n) => Identifier::U64(*n),
            Identifier::Bytes(b) => {
                let c = b.clone();
                assert(c@ =~= b@);
                Identifier::Bytes(c)
            },
            Identifier::Path(p) => Identifier::Path(Self::copy_path(p)),
        }
    }

    fn copy_path(p: &Vec<Identifier>) -> (r: Vec<Identifier>)
        ensures
            ids_view(r@) == ids_view(p@),
        decreases p,
    {
        proof {
            lemma_ids_view(p@);
        }
        let mut out: Vec<Identifier> = Vec::new();
        let mut i: usize = 0;
        while i < p.len()
            invariant
                0 <= i <= p.len(),
                out.len() == i,
                ids_view(p@).len() == p.len(),
                forall|j: int| 0 <= j < p.len() ==> #[trigger] ids_view(p@)[j] == id_view(p@[j]),
                forall|j: int| 0 <= j < i ==> id_view(#[trigger] out@[j]) == id_view(p@[j]),
            decreases p.len() - i,
        {
            proof {
                assert(decreases_to!(p => p@));
                assert(decreases_to!(p@ => p@[i as int]));
            }
            let c = p[i].duplicate();
            out.push(c);
            i = i + 1;
        }
        proof {
            lemma_ids_view(out@);
            assert(ids_view(out@) =~= ids_view(p@));
        }
        out
    }
}

impl Clone for Identifier {
    fn clone(&self) -> Self {
        self.duplicate()
    }
}

} // verus!
