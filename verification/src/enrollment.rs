//! Embeddings and the store of the enrolled reference.
//!
//! An embedding is what the feature extractor makes of a face: 128
//! single-precision numbers, held as their bits. The store keeps the one
//! reference that faces are compared with. It starts from what was kept on
//! disk, or from zeros where nothing readable was kept, and an enrollment
//! replaces it.

use vstd::prelude::*;

verus! {

/// The number of values in an embedding.
pub const EMBEDDING_LENGTH: usize = 128;

/// The embedding that is all zeros.
pub open spec fn zero_vector() -> Seq<u32> {
    Seq::new(EMBEDDING_LENGTH as nat, |i: int| 0u32)
}

/// What the store starts from: the vector that was kept, where there is one
/// of the right length, else the zero vector.
pub open spec fn loaded(stored: Option<Seq<u32>>) -> Seq<u32> {
    match stored {
        Some(values) => if values.len() == EMBEDDING_LENGTH {
            values
        } else {
            zero_vector()
        },
        None => zero_vector(),
    }
}

/// A vector of `EMBEDDING_LENGTH` single-precision numbers, as bits.
#[derive(Debug)]
pub struct Embedding {
    values: Vec<u32>,
}

impl View for Embedding {
    type V = Seq<u32>;

    closed spec fn view(&self) -> Seq<u32> {
        self.values@
    }
}

impl Embedding {
    #[verifier::type_invariant]
    spec fn sized(self) -> bool {
        self.values.len() == EMBEDDING_LENGTH
    }

    /// The embedding that is all zeros.
    pub fn zero() -> (embedding: Embedding)
        ensures
            embedding@ == zero_vector(),
    {
        let mut values: Vec<u32> = Vec::new();
        let mut i: usize = 0;
        while i < EMBEDDING_LENGTH
            invariant
                i <= EMBEDDING_LENGTH,
                values@.len() == i,
                forall|j: int| 0 <= j < i ==> values@[j] == 0,
            decreases EMBEDDING_LENGTH - i,
        {
            values.push(0);
            i = i + 1;
        }
        assert(values@ =~= zero_vector());
        Embedding { values }
    }

    /// An embedding of the given values, where there are `EMBEDDING_LENGTH`
    /// of them.
    pub fn from_values(values: Vec<u32>) -> (embedding: Option<Embedding>)
        ensures
            values@.len() == EMBEDDING_LENGTH ==> embedding.is_some() && embedding.unwrap()@
                == values@,
            values@.len() != EMBEDDING_LENGTH ==> embedding.is_none(),
    {
        if values.len() == EMBEDDING_LENGTH {
            Some(Embedding { values })
        } else {
            None
        }
    }

    /// The values of the embedding.
    pub fn values(&self) -> (values: &Vec<u32>)
        ensures
            values@ == self@,
            values@.len() == EMBEDDING_LENGTH,
    {
        proof {
            use_type_invariant(self);
        }
        &self.values
    }
}

/// The store of the reference embedding.
#[derive(Debug)]
pub struct EnrollmentStore {
    reference: Embedding,
}

impl View for EnrollmentStore {
    type V = Seq<u32>;

    closed spec fn view(&self) -> Seq<u32> {
        self.reference@
    }
}

impl EnrollmentStore {
    /// The store as it starts: with the vector that was kept, or with zeros
    /// where none was kept or it has not the length of an embedding.
    pub fn load(stored: Option<Vec<u32>>) -> (store: EnrollmentStore)
        ensures
            store@ == loaded(
                match stored {
                    Some(values) => Some(values@),
                    None => None,
                },
            ),
    {
        let kept: Option<Embedding> = match stored {
            Some(values) => Embedding::from_values(values),
            None => None,
        };
        match kept {
            Some(reference) => EnrollmentStore { reference },
            None => EnrollmentStore { reference: Embedding::zero() },
        }
    }

    /// Makes `embedding` the reference. What is then to be kept on disk is
    /// `current()`.
    pub fn enroll(&mut self, embedding: Embedding)
        ensures
            final(self)@ == embedding@,
            final(self)@.len() == EMBEDDING_LENGTH,
        no_unwind
    {
        proof {
            use_type_invariant(&embedding);
        }
        self.reference = embedding;
    }

    /// The reference.
    pub fn current(&self) -> (reference: &Embedding)
        ensures
            reference@ == self@,
            reference@.len() == EMBEDDING_LENGTH,
    {
        proof {
            use_type_invariant(&self.reference);
        }
        &self.reference
    }
}

/// What was enrolled and kept is what the store starts from the next time.
pub proof fn lemma_enrolled_is_loaded(embedding: Seq<u32>)
    requires
        embedding.len() == EMBEDDING_LENGTH,
    ensures
        loaded(Some(embedding)) == embedding,
{
}

/// With nothing kept the store starts from `EMBEDDING_LENGTH` zeros.
pub proof fn lemma_nothing_kept_is_zero()
    ensures
        loaded(None) == zero_vector(),
        loaded(None).len() == EMBEDDING_LENGTH,
        forall|i: int| 0 <= i < EMBEDDING_LENGTH ==> loaded(None)[i] == 0,
{
}

} // verus!
