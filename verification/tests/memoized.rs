use evalcheck::field::Field;
use evalcheck::memoized::MemoizedData;

/// The integers modulo 251, as a field for tests.
#[derive(Clone, Copy, Debug, PartialEq, Eq)]
struct Mod251(u32);

impl Field for Mod251 {
    fn mul_spec(self, rhs: Self) -> Self {
        self.times(rhs)
    }

    fn times(self, rhs: Self) -> Self {
        Mod251(self.0 * rhs.0 % 251)
    }

    fn same(self, rhs: Self) -> bool {
        self.0 == rhs.0
    }

    fn lemma_mul_associative(_a: Self, _b: Self, _c: Self) {}
}

fn point(coordinates: &[u32]) -> Vec<Mod251> {
    coordinates.iter().map(|v| Mod251(*v)).collect()
}

#[test]
fn empty_record_knows_nothing() {
    let memo = MemoizedData::<Mod251>::new();
    assert_eq!(memo.len(), 0);
    assert_eq!(memo.get(0, &point(&[])), None);
    assert!(memo.entries().is_empty());
}

#[test]
fn recorded_value_is_found_by_oracle_and_point() {
    let mut memo = MemoizedData::new();
    assert!(memo.record(3, &point(&[1, 2]), Mod251(9)));
    assert_eq!(memo.get(3, &point(&[1, 2])), Some(Mod251(9)));
    assert_eq!(memo.get(3, &point(&[2, 1])), None);
    assert_eq!(memo.get(3, &point(&[1])), None);
    assert_eq!(memo.get(3, &point(&[1, 2, 0])), None);
    assert_eq!(memo.get(4, &point(&[1, 2])), None);
    assert_eq!(memo.len(), 1);
}

#[test]
fn record_never_replaces_a_value() {
    let mut memo = MemoizedData::new();
    assert!(memo.record(3, &point(&[1, 2]), Mod251(9)));
    assert!(!memo.record(3, &point(&[1, 2]), Mod251(10)));
    assert!(!memo.record(3, &point(&[1, 2]), Mod251(9)));
    assert_eq!(memo.get(3, &point(&[1, 2])), Some(Mod251(9)));
    assert_eq!(memo.len(), 1);
}

#[test]
fn record_only_grows_at_its_end() {
    let mut memo = MemoizedData::new();
    let mut expected: Vec<(usize, Vec<Mod251>, Mod251)> = Vec::new();
    for i in 0..20u32 {
        let id = (i % 3) as usize;
        let at = point(&[i % 4, i % 2]);
        let fresh = memo.get(id, &at).is_none();
        assert_eq!(memo.record(id, &at, Mod251(i)), fresh);
        if fresh {
            expected.push((id, at, Mod251(i)));
        }
        let entries = memo.entries();
        assert_eq!(entries.len(), expected.len());
        assert_eq!(memo.len(), expected.len());
        for (entry, (id, at, eval)) in entries.iter().zip(expected.iter()) {
            assert_eq!(entry.id, *id);
            assert_eq!(&entry.eval_point, at);
            assert_eq!(entry.eval, *eval);
        }
    }
    assert_eq!(expected.len(), 12);
}
