use math::Permutation;

#[test]
fn test_apply_identity() {
    let rotation = Permutation::<4>::identity();
    assert_eq!(rotation.apply(1), 1);
    assert_eq!(rotation.apply(2), 2);
    assert_eq!(rotation.apply(3), 3);
    assert_eq!(rotation.apply(4), 4);
}

#[test]
fn test_apply_rotation() {
    let rotation = Permutation::<4>::rotation();
    assert_eq!(rotation.apply(1), 2);
    assert_eq!(rotation.apply(2), 3);
    assert_eq!(rotation.apply(3), 4);
    assert_eq!(rotation.apply(4), 1);
}

#[test]
fn test_apply_flip() {
    let flip = Permutation::<5>::new([1, 5, 4, 3, 2]);
    assert_eq!(flip.apply(1), 1);
    assert_eq!(flip.apply(2), 5);
    assert_eq!(flip.apply(3), 4);
    assert_eq!(flip.apply(4), 3);
    assert_eq!(flip.apply(5), 2);
}

#[test]
fn test_double_rotation() {
    let rotation = Permutation::<4>::rotation();
    let double_rotation = rotation.compose(&rotation);
    assert_eq!(double_rotation.apply(1), 3);
    assert_eq!(double_rotation.apply(2), 4);
    assert_eq!(double_rotation.apply(3), 1);
    assert_eq!(double_rotation.apply(4), 2);
}

fn images<const N: usize>(p: &Permutation<N>) -> Vec<u32> {
    (1..=N as u32).map(|k| p.apply(k)).collect()
}

#[test]
fn test_single_element() {
    let only = Permutation::<1>::identity();
    assert_eq!(only.apply(1), 1);
    let turned = Permutation::<1>::rotation();
    assert_eq!(turned.apply(1), 1);
    assert_eq!(turned.first_cycle_length(), 1);
    assert_eq!(turned.cycles(), vec![vec![1]]);
    assert_eq!(turned.cycle_notation(), "(1)");
}

#[test]
fn test_identity_fixes_every_label() {
    let identity = Permutation::<7>::identity();
    for k in 1..=7 {
        assert_eq!(identity.apply(k), k);
    }
}

#[test]
fn test_rotation_formula() {
    let rotation = Permutation::<7>::rotation();
    for k in 1..=7u32 {
        assert_eq!(rotation.apply(k), (k % 7) + 1);
    }
    assert_eq!(rotation.apply(7), 1);
}

#[test]
fn test_images_are_each_label_once() {
    let p = Permutation::<6>::new([3, 1, 2, 6, 4, 5]);
    let q = Permutation::<6>::rotation().compose(&p);
    for perm in [&p, &q] {
        let mut seen = images(perm);
        seen.sort();
        assert_eq!(seen, vec![1, 2, 3, 4, 5, 6]);
    }
}

#[test]
fn test_compose_applies_right_operand_first() {
    let a = Permutation::<4>::new([2, 1, 3, 4]);
    let b = Permutation::<4>::new([1, 3, 2, 4]);
    let ab = a.compose(&b);
    let ba = b.compose(&a);
    for k in 1..=4 {
        assert_eq!(ab.apply(k), a.apply(b.apply(k)));
        assert_eq!(ba.apply(k), b.apply(a.apply(k)));
    }
    assert_eq!(images(&ab), vec![2, 3, 1, 4]);
    assert_eq!(images(&ba), vec![3, 1, 2, 4]);
}

#[test]
fn test_compose_is_associative() {
    let a = Permutation::<5>::new([2, 3, 1, 5, 4]);
    let b = Permutation::<5>::new([5, 4, 3, 2, 1]);
    let c = Permutation::<5>::rotation();
    let left = a.compose(&b).compose(&c);
    let right = a.compose(&b.compose(&c));
    assert_eq!(images(&left), images(&right));
    assert_eq!(images(&left), vec![5, 1, 3, 2, 4]);
}

#[test]
fn test_compose_with_identity() {
    let p = Permutation::<5>::new([2, 3, 1, 5, 4]);
    let identity = Permutation::<5>::identity();
    assert_eq!(images(&p.compose(&identity)), vec![2, 3, 1, 5, 4]);
    assert_eq!(images(&identity.compose(&p)), vec![2, 3, 1, 5, 4]);
}

#[test]
fn test_first_cycle_length_values() {
    assert_eq!(Permutation::<4>::identity().first_cycle_length(), 1);
    assert_eq!(Permutation::<4>::rotation().first_cycle_length(), 4);
    assert_eq!(Permutation::<5>::new([1, 5, 4, 3, 2]).first_cycle_length(), 1);
    assert_eq!(Permutation::<5>::new([2, 3, 1, 5, 4]).first_cycle_length(), 3);
    assert_eq!(Permutation::<5>::new([5, 3, 2, 4, 1]).first_cycle_length(), 2);
}

#[test]
fn test_first_cycle_length_is_length_of_first_cycle() {
    let perms = [
        Permutation::<6>::new([3, 1, 2, 6, 4, 5]),
        Permutation::<6>::new([6, 5, 4, 3, 2, 1]),
        Permutation::<6>::rotation(),
        Permutation::<6>::identity(),
    ];
    for p in perms.iter() {
        let cycles = p.cycles();
        let length = p.first_cycle_length();
        assert!(1 <= length && length <= 6);
        assert_eq!(cycles[0][0], 1);
        assert_eq!(cycles[0].len() as u32, length);
    }
}

#[test]
fn test_cycles_of_rotation() {
    let cycles = Permutation::<4>::rotation().cycles();
    assert_eq!(cycles, vec![vec![1, 2, 3, 4]]);
}

#[test]
fn test_cycles_of_identity() {
    let cycles = Permutation::<3>::identity().cycles();
    assert_eq!(cycles, vec![vec![1], vec![2], vec![3]]);
}

#[test]
fn test_cycles_of_flip() {
    let cycles = Permutation::<5>::new([1, 5, 4, 3, 2]).cycles();
    assert_eq!(cycles, vec![vec![1], vec![2, 5], vec![3, 4]]);
}

#[test]
fn test_cycles_follow_the_mapping() {
    let cycles = Permutation::<5>::new([3, 4, 5, 2, 1]).cycles();
    assert_eq!(cycles, vec![vec![1, 3, 5], vec![2, 4]]);
}

#[test]
fn test_cycle_lengths_sum_to_size() {
    let perms = [
        Permutation::<6>::new([3, 1, 2, 6, 4, 5]),
        Permutation::<6>::new([6, 5, 4, 3, 2, 1]),
        Permutation::<6>::new([1, 2, 4, 3, 6, 5]),
    ];
    for p in perms.iter() {
        let cycles = p.cycles();
        let total: usize = cycles.iter().map(|cycle| cycle.len()).sum();
        assert_eq!(total, 6);
        let mut labels: Vec<u32> = cycles.into_iter().flatten().collect();
        labels.sort();
        assert_eq!(labels, vec![1, 2, 3, 4, 5, 6]);
    }
}

fn gcd(a: usize, b: usize) -> usize {
    if b == 0 {
        a
    } else {
        gcd(b, a % b)
    }
}

#[test]
fn test_powers_of_rotation_of_eight() {
    let rotation = Permutation::<8>::rotation();
    let mut power = Permutation::<8>::identity();
    for step in 0..8usize {
        let cycles = power.cycles();
        let divisor = if step == 0 { 8 } else { gcd(step, 8) };
        assert_eq!(cycles.len(), divisor);
        for cycle in cycles.iter() {
            assert_eq!(cycle.len(), 8 / divisor);
        }
        assert_eq!(power.first_cycle_length() as usize, 8 / divisor);
        power = power.compose(&rotation);
    }
    assert_eq!(images(&power), vec![1, 2, 3, 4, 5, 6, 7, 8]);
}

#[test]
fn test_first_cycle_length_tally_of_eight() {
    let rotation = Permutation::<8>::rotation();
    let mut power = Permutation::<8>::identity();
    let mut lengths = Vec::new();
    for _ in 0..8 {
        lengths.push(power.first_cycle_length());
        power = power.compose(&rotation);
    }
    assert_eq!(lengths, vec![1, 8, 4, 8, 2, 8, 4, 8]);
}

#[test]
fn test_cycle_notation_of_rotation() {
    assert_eq!(Permutation::<4>::rotation().cycle_notation(), "(1 2 3 4)");
}

#[test]
fn test_cycle_notation_of_flip() {
    let flip = Permutation::<5>::new([1, 5, 4, 3, 2]);
    assert_eq!(flip.cycle_notation(), "(1)(2 5)(3 4)");
}

#[test]
fn test_cycle_notation_with_long_labels() {
    let p = Permutation::<12>::new([12, 11, 10, 9, 8, 7, 6, 5, 4, 3, 2, 1]);
    assert_eq!(p.cycle_notation(), "(1 12)(2 11)(3 10)(4 9)(5 8)(6 7)");
}
