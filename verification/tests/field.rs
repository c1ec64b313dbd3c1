use evalcheck::field::{copy_elements, same_elements, BinaryField1b, Field};

/// The integers modulo 251, as a field for tests.
#[derive(Clone, Copy, Debug, PartialEq, Eq)]
struct Mod251(u32);

impl Field for Mod251 {
    fn mul_spec(self, rhs: Self) -> Self {
        self.times(rhs)
    }

    fn times(self, rhs: Self) -> Self {
        Mod251(self.0 * rhs.0 % 251)
    }

    fn lemma_mul_associative(_a: Self, _b: Self, _c: Self) {}

    fn same(self, rhs: Self) -> bool {
        self.0 == rhs.0
    }
}

#[test]
fn binary_field_1b_multiplies_as_conjunction() {
    let zero = BinaryField1b { bit: false };
    let one = BinaryField1b { bit: true };
    assert_eq!(zero.times(zero), zero);
    assert_eq!(zero.times(one), zero);
    assert_eq!(one.times(zero), zero);
    assert_eq!(one.times(one), one);
    assert!(one.same(one));
    assert!(!one.same(zero));
}

#[test]
fn same_elements_compares_length_and_places() {
    let a = vec![Mod251(1), Mod251(2), Mod251(3)];
    assert!(same_elements(&a, &vec![Mod251(1), Mod251(2), Mod251(3)]));
    assert!(!same_elements(&a, &vec![Mod251(1), Mod251(2)]));
    assert!(!same_elements(&a, &vec![Mod251(1), Mod251(2), Mod251(4)]));
    assert!(same_elements::<Mod251>(&vec![], &vec![]));
}

#[test]
fn copy_elements_keeps_every_element() {
    let a = vec![Mod251(7), Mod251(0), Mod251(250)];
    assert_eq!(copy_elements(&a), a);
    assert_eq!(copy_elements::<Mod251>(&vec![]), vec![]);
}
