use hashring::range::KeyRange;

#[test]
fn basic() {
    let range = KeyRange::new(10, 5);

    assert!(range.is_wrapping());
    assert!(range.contains(&0));
    assert!(!range.contains(&5));
    assert!(!range.contains(&7));
    assert!(!range.contains(&9));
    assert!(range.contains(&0));
    assert!(range.contains(&4));
    assert!(range.contains(&10));
    assert!(range.contains(&u64::MAX));

    let range = KeyRange::new(5, 10);

    assert!(!range.is_wrapping());
    assert!(!range.contains(&0));
    assert!(range.contains(&5));
    assert!(range.contains(&7));
    assert!(range.contains(&9));
    assert!(!range.contains(&0));
    assert!(!range.contains(&4));
    assert!(!range.contains(&10));
    assert!(!range.contains(&u64::MAX));
}

#[test]
fn overlap() {
    {
        // =====
        //    =====
        let r1 = KeyRange::new(5, 10);
        let r2 = KeyRange::new(8, 13);

        assert!(r1.is_overlapping(&r2));
        assert!(r2.is_overlapping(&r1));
    }

    {
        // =====
        //      =====
        let r1 = KeyRange::new(5, 10);
        let r2 = KeyRange::new(10, 15);

        assert!(!r1.is_overlapping(&r2));
        assert!(!r2.is_overlapping(&r1));
    }

    {
        //     =====
        // ====     ====
        let r1 = KeyRange::new(5, 10);
        let r2 = KeyRange::new(10, 5);

        assert!(!r1.is_overlapping(&r2));
        assert!(!r2.is_overlapping(&r1));
    }

    {
        //     =====
        // ======   ====
        let r1 = KeyRange::new(5, 10);
        let r2 = KeyRange::new(10, 7);

        assert!(r1.is_overlapping(&r2));
        assert!(r2.is_overlapping(&r1));
    }

    {
        //       =====
        // ======   ====
        let r1 = KeyRange::new(5, 10);
        let r2 = KeyRange::new(7, 5);

        assert!(r1.is_overlapping(&r2));
        assert!(r2.is_overlapping(&r1));
    }

    {
        //       =====
        // =============
        let r1 = KeyRange::new(5, 10);
        let r2 = KeyRange::new(5, 5);

        assert!(r1.is_overlapping(&r2));
        assert!(r2.is_overlapping(&r1));
    }

    {
        // =====     ====
        // =======  =====
        let r1 = KeyRange::new(10, 5);
        let r2 = KeyRange::new(9, 6);

        assert!(r1.is_overlapping(&r2));
        assert!(r2.is_overlapping(&r1));
    }
}

#[test]
fn extension() {
    {
        // =====
        //    =====
        let mut r1 = KeyRange::new(5, 10);
        let r2 = KeyRange::new(8, 13);

        r1.extend_end(&r2);

        assert_eq!(r1, KeyRange::new(5, 13));
    }

    {
        // =====
        //    =====
        let r1 = KeyRange::new(5, 10);
        let mut r2 = KeyRange::new(8, 13);

        r2.extend_end(&r1);

        assert_eq!(r2, KeyRange::new(8, 13));
    }

    {
        // =====
        //    =====
        let mut r1 = KeyRange::new(5, 10);
        let r2 = KeyRange::new(8, 13);

        r1.extend_start(&r2);

        assert_eq!(r1, KeyRange::new(5, 10));
    }

    {
        // =====
        //    =====
        let r1 = KeyRange::new(5, 10);
        let mut r2 = KeyRange::new(8, 13);

        r2.extend_start(&r1);

        assert_eq!(r2, KeyRange::new(5, 13));
    }

    {
        //     =====
        // ======   ====
        let mut r1 = KeyRange::new(5, 10);
        let r2 = KeyRange::new(10, 7);

        r1.extend_end(&r2);

        assert_eq!(r1, KeyRange::new(5, 10));
    }

    {
        //     =====
        // ======   ====
        let r1 = KeyRange::new(5, 10);
        let mut r2 = KeyRange::new(10, 7);

        r2.extend_end(&r1);

        assert_eq!(r2, KeyRange::new(10, 10));
    }

    {
        //     =====
        // ======   ====
        let mut r1 = KeyRange::new(5, 10);
        let r2 = KeyRange::new(10, 7);

        r1.extend_start(&r2);

        assert_eq!(r1, KeyRange::new(5, 10));
    }

    {
        //     =====
        // ======   ====
        let r1 = KeyRange::new(5, 10);
        let mut r2 = KeyRange::new(10, 7);

        r2.extend_start(&r1);

        assert_eq!(r2, KeyRange::new(7, 7));
    }

    {
        //       =====
        // =============
        let mut r1 = KeyRange::new(5, 10);
        let r2 = KeyRange::new(5, 5);

        r1.extend_start(&r2);

        assert_eq!(r1, KeyRange::new(5, 10));
    }

    {
        //       =====
        // =============
        let mut r1 = KeyRange::new(5, 10);
        let r2 = KeyRange::new(5, 5);

        r1.extend_end(&r2);

        assert_eq!(r1, KeyRange::new(5, 10));
    }
}

#[test]
fn size() {
    // Wrapping ranges.
    assert_eq!(KeyRange::new(0, 0).size(), u64::MAX);
    assert_eq!(KeyRange::new(10, 10).size(), u64::MAX);
    assert_eq!(KeyRange::new(10, 9).size(), u64::MAX - 1);

    // Regular ranges.
    assert_eq!(KeyRange::new(5, 10).size(), 5);
}

#[test]
fn wrapping_containment() {
    // A wrapping range excludes the middle and covers both ends.
    let wrapping = KeyRange::new(10, 5);
    assert!(!wrapping.contains(&7));
    assert!(wrapping.contains(&2));

    // A regular range covers exactly the middle.
    let regular = KeyRange::new(5, 10);
    assert!(regular.contains(&7));
    assert!(!regular.contains(&12));
}

#[test]
fn from_std_range() {
    let r: KeyRange = (3u64..6u64).into();
    assert_eq!(r, KeyRange::new(3, 6));
}
