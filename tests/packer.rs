use image_packer::{Layout, PackError, Packer, Rect};

fn packer(texture_size: [usize; 2], spacing: usize, enable_rotate: bool) -> Packer {
    Packer { texture_size, spacing, enable_rotate }
}

fn effective_size(layout: &Layout, sizes: &[[usize; 2]]) -> [usize; 2] {
    let s = sizes[layout.index];
    if layout.rotated {
        [s[1], s[0]]
    } else {
        s
    }
}

/// Checks every invariant that a result of `pack` must satisfy.
fn check_invariants(p: &Packer, sizes: &[[usize; 2]], results: &[Vec<Layout>]) {
    let total: usize = results.iter().map(|b| b.len()).sum();
    assert_eq!(total, sizes.len());

    let mut indices: Vec<usize> = results.iter().flatten().map(|l| l.index).collect();
    indices.sort();
    for (i, actual) in indices.iter().enumerate() {
        assert_eq!(i, *actual);
    }

    let texture = Rect { position: [0, 0], size: p.texture_size };
    for layout in results.iter().flatten() {
        let rect = Rect { position: layout.position, size: effective_size(layout, sizes) };
        assert!(texture.includes(&rect), "{:?} outside texture", layout);
        if !p.enable_rotate {
            assert!(!layout.rotated);
        }
    }

    for bin in results {
        assert!(!bin.is_empty());
        for (k1, l1) in bin.iter().enumerate() {
            for (k2, l2) in bin.iter().enumerate() {
                if k1 < k2 {
                    assert!(l1.index < l2.index);
                }
                if k1 != k2 {
                    let s1 = effective_size(l1, sizes);
                    let s2 = effective_size(l2, sizes);
                    let r1 = Rect { position: l1.position, size: [s1[0] + p.spacing, s1[1] + p.spacing] };
                    let r2 = Rect { position: l2.position, size: [s2[0] + p.spacing, s2[1] + p.spacing] };
                    assert!(!r1.has_intersection(&r2), "{:?} {:?}", r1, r2);
                }
            }
        }
    }
}

/// A small linear congruential generator, so that the inputs are reproducible.
struct Lcg(u64);

impl Lcg {
    fn next(&mut self, bound: usize) -> usize {
        self.0 = self.0.wrapping_mul(6364136223846793005).wrapping_add(1442695040888963407);
        ((self.0 >> 33) as usize) % bound
    }
}

#[test]
fn test_pack() {
    let mut rng = Lcg(7);
    for round in 0..60 {
        let spacing = rng.next(2);
        let enable_rotate = round % 2 == 0;
        let n = 1 + rng.next(99);
        let sizes: Vec<[usize; 2]> = (0..n).map(|_| [1 + rng.next(1023), 1 + rng.next(1023)]).collect();
        let p = packer([1024, 1024], spacing, enable_rotate);
        let results = p.pack(&sizes).unwrap();
        check_invariants(&p, &sizes, &results);
    }
}

#[test]
fn pack_small_textures_with_spacing_and_rotation() {
    let mut rng = Lcg(42);
    for round in 0..200 {
        let w = 4 + rng.next(40);
        let h = 4 + rng.next(40);
        let spacing = rng.next(4);
        let p = packer([w, h], spacing, round % 3 != 0);
        let n = rng.next(30);
        let sizes: Vec<[usize; 2]> = (0..n).map(|_| [rng.next(w + 1), rng.next(h + 1)]).collect();
        let results = p.pack(&sizes).unwrap();
        check_invariants(&p, &sizes, &results);
    }
}

#[test]
fn empty_input() {
    let results = packer([10, 10], 0, false).pack(&vec![]).unwrap();
    assert!(results.is_empty());
}

#[test]
fn single_exact_fit() {
    let results = packer([10, 10], 0, false).pack(&vec![[10, 10]]).unwrap();
    assert_eq!(results, vec![vec![Layout { index: 0, position: [0, 0], rotated: false }]]);
}

#[test]
fn two_halves() {
    let p = packer([10, 10], 0, false);
    let sizes = vec![[10, 5], [10, 5]];
    let results = p.pack(&sizes).unwrap();
    assert_eq!(results.len(), 1);
    assert_eq!(results[0].len(), 2);
    assert_eq!(results[0][0], Layout { index: 0, position: [0, 0], rotated: false });
    assert_eq!(results[0][1], Layout { index: 1, position: [0, 5], rotated: false });
    check_invariants(&p, &sizes, &results);
}

#[test]
fn overflow_to_second_bin() {
    let results = packer([10, 10], 0, false).pack(&vec![[10, 10], [1, 1]]).unwrap();
    assert_eq!(
        results,
        vec![
            vec![Layout { index: 0, position: [0, 0], rotated: false }],
            vec![Layout { index: 1, position: [0, 0], rotated: false }],
        ]
    );
}

#[test]
fn rotation_needed() {
    // Every input must fit the texture unturned before placement starts, so an
    // image wider than the texture is refused even with turning on.
    let r = packer([10, 20], 0, true).pack(&vec![[20, 10]]);
    assert_eq!(r, Err(PackError::ImageTooLarge { index: 0, size: [20, 10], texture_size: [10, 20] }));
}

#[test]
fn rotation_disabled_rejects_wide_image() {
    let r = packer([10, 20], 0, false).pack(&vec![[20, 10]]);
    assert_eq!(r, Err(PackError::ImageTooLarge { index: 0, size: [20, 10], texture_size: [10, 20] }));
}

#[test]
fn rotation_needed_in_partly_filled_texture() {
    // The second image does not fit unturned in what the first leaves, but does turned.
    let p = packer([10, 10], 0, true);
    let sizes = vec![[10, 6], [4, 10]];
    let results = p.pack(&sizes).unwrap();
    assert_eq!(
        results,
        vec![vec![
            Layout { index: 0, position: [0, 0], rotated: false },
            Layout { index: 1, position: [0, 6], rotated: true },
        ]]
    );
    check_invariants(&p, &sizes, &results);
}

#[test]
fn rejected_input() {
    let r = packer([10, 10], 0, false).pack(&vec![[20, 5]]);
    assert_eq!(r, Err(PackError::ImageTooLarge { index: 0, size: [20, 5], texture_size: [10, 10] }));
}

#[test]
fn rejected_input_names_first_offender() {
    let r = packer([10, 10], 0, false).pack(&vec![[5, 5], [5, 11], [11, 5]]);
    assert_eq!(r, Err(PackError::ImageTooLarge { index: 1, size: [5, 11], texture_size: [10, 10] }));
}

#[test]
fn invalid_config() {
    let r = packer([0, 10], 0, false).pack(&vec![]);
    assert_eq!(r, Err(PackError::BadTextureSize { texture_size: [0, 10] }));
    let r = packer([10, 10], 10, false).pack(&vec![]);
    assert_eq!(r, Err(PackError::SpacingTooLarge { spacing: 10, texture_size: [10, 10] }));
}

#[test]
fn texture_larger_than_maximum() {
    let r = packer([4097, 10], 0, false).pack(&vec![[1, 1]]);
    assert_eq!(r, Err(PackError::BadTextureSize { texture_size: [4097, 10] }));
    let r = packer([4096, 4096], 0, false).pack(&vec![[4096, 4096]]).unwrap();
    assert_eq!(r, vec![vec![Layout { index: 0, position: [0, 0], rotated: false }]]);
}

#[test]
fn texture_size_checked_before_spacing() {
    let r = packer([0, 0], 5, false).pack(&vec![[1, 1]]);
    assert_eq!(r, Err(PackError::BadTextureSize { texture_size: [0, 0] }));
}

#[test]
fn spacing_checked_before_images() {
    let r = packer([10, 4], 4, false).pack(&vec![[20, 20]]);
    assert_eq!(r, Err(PackError::SpacingTooLarge { spacing: 4, texture_size: [10, 4] }));
}

#[test]
fn spacing_is_clamped_at_texture_edge() {
    // 10 + 2 is cut down to the texture's side, so the image still fits.
    let p = packer([10, 10], 2, false);
    let results = p.pack(&vec![[10, 10]]).unwrap();
    assert_eq!(results, vec![vec![Layout { index: 0, position: [0, 0], rotated: false }]]);
    // Away from the edge the full spacing is kept: 4 + 2 leaves too little for a second image.
    let results = p.pack(&vec![[4, 10], [4, 10]]).unwrap();
    assert_eq!(
        results,
        vec![
            vec![Layout { index: 0, position: [0, 0], rotated: false }],
            vec![Layout { index: 1, position: [0, 0], rotated: false }],
        ]
    );
}

#[test]
fn spacing_separates_images() {
    let p = packer([10, 10], 1, false);
    let sizes = vec![[4, 4], [4, 4], [4, 4], [4, 4]];
    let results = p.pack(&sizes).unwrap();
    assert_eq!(
        results,
        vec![vec![
            Layout { index: 0, position: [0, 0], rotated: false },
            Layout { index: 1, position: [5, 0], rotated: false },
            Layout { index: 2, position: [0, 5], rotated: false },
            Layout { index: 3, position: [5, 5], rotated: false },
        ]]
    );
    check_invariants(&p, &sizes, &results);
}

#[test]
fn full_bin_opens_new_one_and_never_returns() {
    let p = packer([10, 10], 0, false);
    let sizes = vec![[10, 8], [10, 5], [10, 2]];
    let results = p.pack(&sizes).unwrap();
    // The third image would fit the first texture, but packing never goes back.
    assert_eq!(
        results,
        vec![
            vec![Layout { index: 0, position: [0, 0], rotated: false }],
            vec![
                Layout { index: 1, position: [0, 0], rotated: false },
                Layout { index: 2, position: [0, 5], rotated: false },
            ],
        ]
    );
}
