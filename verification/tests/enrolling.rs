use redface::enrollment::{Embedding, EnrollmentStore, EMBEDDING_LENGTH};

fn sample(seed: u32) -> Vec<u32> {
    (0..128u32).map(|i| ((i * 31 + seed) as f32 / 977.0).to_bits()).collect()
}

#[test]
fn embeddings_have_128_values() {
    assert_eq!(EMBEDDING_LENGTH, 128);
    assert!(Embedding::from_values(sample(1)).is_some());
    assert!(Embedding::from_values(vec![0; 127]).is_none());
    assert!(Embedding::from_values(vec![0; 129]).is_none());
    assert!(Embedding::from_values(Vec::new()).is_none());
    assert_eq!(Embedding::from_values(sample(1)).unwrap().values(), &sample(1));
}

#[test]
fn nothing_kept_gives_the_zero_vector() {
    let store = EnrollmentStore::load(None);
    assert_eq!(store.current().values(), &vec![0u32; 128]);
    assert_eq!(store.current().values(), Embedding::zero().values());
    assert!(store.current().values().iter().all(|bits| f32::from_bits(*bits) == 0.0));
}

#[test]
fn an_unreadable_vector_gives_the_zero_vector() {
    let store = EnrollmentStore::load(Some(vec![5; 100]));
    assert_eq!(store.current().values(), &vec![0u32; 128]);
    let store = EnrollmentStore::load(Some(Vec::new()));
    assert_eq!(store.current().values(), &vec![0u32; 128]);
}

#[test]
fn what_was_kept_is_loaded() {
    let store = EnrollmentStore::load(Some(sample(7)));
    assert_eq!(store.current().values(), &sample(7));
}

#[test]
fn enrolling_replaces_the_reference() {
    let mut store = EnrollmentStore::load(None);
    store.enroll(Embedding::from_values(sample(3)).unwrap());
    assert_eq!(store.current().values(), &sample(3));
    store.enroll(Embedding::from_values(sample(4)).unwrap());
    assert_eq!(store.current().values(), &sample(4));
}

#[test]
fn enrolled_then_loaded_is_the_same() {
    let mut store = EnrollmentStore::load(None);
    store.enroll(Embedding::from_values(sample(9)).unwrap());
    let kept = store.current().values().clone();
    let again = EnrollmentStore::load(Some(kept));
    assert_eq!(again.current().values(), &sample(9));
}
