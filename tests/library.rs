use raytracer::bvh::{AxisKeys, BvhTree};
use raytracer::framebuffer::{gray_color, Framebuffer};
use raytracer::material::EmptyMaterial;
use raytracer::mesh::mesh_triangles;
use raytracer::perlin::{perlin_generate_perm, permute, PermTables, POINT_COUNT};
use raytracer::sampler::pixel_allocate;
use raytracer::texture::ImageTexture;
use raytracer::utility::random_int_range;

fn leaves(t: &BvhTree, out: &mut Vec<usize>) {
    match t {
        BvhTree::Leaf(id) => out.push(*id),
        BvhTree::Node(l, r) => {
            leaves(l, out);
            leaves(r, out);
        }
    }
}

fn leaf_count(t: &BvhTree) -> usize {
    let mut v = Vec::new();
    leaves(t, &mut v);
    v.len()
}

fn check_median_split(t: &BvhTree) {
    if let BvhTree::Node(l, r) = t {
        let nl = leaf_count(l);
        let nr = leaf_count(r);
        assert_eq!(nl, (nl + nr) / 2);
        check_median_split(l);
        check_median_split(r);
    }
}

fn same_keys(k: u64) -> AxisKeys {
    AxisKeys { x: k, y: k, z: k }
}

#[test]
fn random_int_range_stays_in_bounds() {
    let mut seen = [false; 3];
    for _ in 0..2000 {
        let r = random_int_range(0, 2);
        assert!((0..=2).contains(&r));
        seen[r as usize] = true;
    }
    assert!(seen.iter().all(|s| *s));
    for _ in 0..100 {
        let r = random_int_range(-7, -3);
        assert!((-7..=-3).contains(&r));
    }
}

#[test]
fn random_int_range_single_value() {
    assert_eq!(random_int_range(5, 5), 5);
    assert_eq!(random_int_range(-1, -1), -1);
}

#[test]
fn pixel_allocate_in_order() {
    let (buckets, per) = pixel_allocate(4, 3, 5, false);
    assert_eq!(per, 3);
    assert_eq!(buckets.len(), 5);
    assert_eq!(buckets[0], vec![(0, 0), (1, 0), (2, 0)]);
    assert_eq!(buckets[1], vec![(3, 0), (0, 1), (1, 1)]);
    assert_eq!(buckets[2], vec![(2, 1), (3, 1), (0, 2)]);
    assert_eq!(buckets[3], vec![(1, 2), (2, 2), (3, 2)]);
    assert!(buckets[4].is_empty());
}

#[test]
fn pixel_allocate_even_split() {
    let (buckets, per) = pixel_allocate(4, 2, 4, false);
    assert_eq!(per, 2);
    for (k, b) in buckets.iter().enumerate() {
        assert_eq!(b.len(), 2);
        assert_eq!(b[0], ((2 * k) % 4, (2 * k) / 4));
    }
}

#[test]
fn pixel_allocate_shuffled_keeps_every_pixel_once() {
    let (buckets, per) = pixel_allocate(10, 10, 3, true);
    assert_eq!(per, 34);
    assert_eq!(buckets.len(), 3);
    assert_eq!(buckets[0].len(), 34);
    assert_eq!(buckets[1].len(), 34);
    assert_eq!(buckets[2].len(), 32);
    let all: Vec<(usize, usize)> = buckets.concat();
    let mut sorted = all.clone();
    sorted.sort_by_key(|p| (p.1, p.0));
    let expected: Vec<(usize, usize)> =
        (0..10).flat_map(|j| (0..10).map(move |i| (i, j))).collect();
    assert_eq!(sorted, expected);
    // a hundred pixels come back in row order with negligible chance
    assert_ne!(all, expected);
}

#[test]
fn pixel_allocate_empty_image() {
    let (buckets, per) = pixel_allocate(0, 7, 4, true);
    assert_eq!(per, 0);
    assert_eq!(buckets.len(), 4);
    assert!(buckets.iter().all(|b| b.is_empty()));
}

#[test]
fn pixel_allocate_one_thread() {
    let (buckets, per) = pixel_allocate(3, 2, 1, false);
    assert_eq!(per, 6);
    assert_eq!(buckets, vec![vec![(0, 0), (1, 0), (2, 0), (0, 1), (1, 1), (2, 1)]]);
}

#[test]
fn gray_color_takes_brightest_channel() {
    assert_eq!(gray_color(&[10, 200, 30]), 200);
    assert_eq!(gray_color(&[250, 2, 3]), 250);
    assert_eq!(gray_color(&[1, 2, 3]), 3);
    assert_eq!(gray_color(&[0, 0, 0]), 0);
    assert_eq!(gray_color(&[255, 255, 255]), 255);
}

#[test]
fn framebuffer_starts_black_and_keeps_writes() {
    let mut fb = Framebuffer::new(3, 2);
    assert_eq!(fb.width(), 3);
    assert_eq!(fb.height(), 2);
    for y in 0..2 {
        for x in 0..3 {
            assert_eq!(fb.get(x, y), [0, 0, 0]);
        }
    }
    fb.set(2, 1, [9, 8, 7]);
    assert_eq!(fb.get(2, 1), [9, 8, 7]);
    assert_eq!(fb.get(1, 1), [0, 0, 0]);
    assert_eq!(fb.get(2, 0), [0, 0, 0]);
}

fn step_image() -> Framebuffer {
    // left column black, the rest white
    let mut fb = Framebuffer::new(3, 3);
    for y in 0..3 {
        for x in 1..3 {
            fb.set(x, y, [255, 255, 255]);
        }
    }
    fb
}

#[test]
fn edge_detect_marks_steep_gradient() {
    let fb = step_image();
    let out = fb.edge_detect(72);
    assert_eq!(out.width(), 3);
    assert_eq!(out.height(), 3);
    // the Sobel response at the center is 4 * 255 = 1020
    assert_eq!(out.get(1, 1), [0, 0, 0]);
    assert_eq!(fb.edge_detect(1019).get(1, 1), [0, 0, 0]);
    assert_eq!(fb.edge_detect(1020).get(1, 1), [255, 255, 255]);
}

#[test]
fn edge_detect_blacks_out_border() {
    let mut fb = Framebuffer::new(4, 3);
    for y in 0..3 {
        for x in 0..4 {
            fb.set(x, y, [10, 20, 30]);
        }
    }
    let out = fb.edge_detect(72);
    for y in 0..3 {
        for x in 0..4 {
            let inner = x >= 1 && x <= 2 && y == 1;
            let want = if inner { [10, 20, 30] } else { [0, 0, 0] };
            assert_eq!(out.get(x, y), want);
        }
    }
}

#[test]
fn edge_detect_uses_brightest_channel() {
    // a change in a channel that is never the brightest makes no edge
    let mut fb = Framebuffer::new(3, 3);
    for y in 0..3 {
        for x in 0..3 {
            let g = if x == 0 { 0 } else { 90 };
            fb.set(x, y, [200, g, 0]);
        }
    }
    assert_eq!(fb.edge_detect(0).get(1, 1), [200, 90, 0]);
}

#[test]
fn edge_detect_tiny_images() {
    let out = Framebuffer::new(0, 0).edge_detect(72);
    assert_eq!(out.width(), 0);
    let mut fb = Framebuffer::new(2, 1);
    fb.set(0, 0, [1, 1, 1]);
    let out = fb.edge_detect(72);
    assert_eq!(out.get(0, 0), [0, 0, 0]);
    assert_eq!(out.get(1, 0), [0, 0, 0]);
}

#[test]
fn perm_is_a_permutation() {
    let p = perlin_generate_perm();
    assert_eq!(p.len(), POINT_COUNT);
    let mut s = p.clone();
    s.sort();
    let want: Vec<i32> = (0..POINT_COUNT as i32).collect();
    assert_eq!(s, want);
    // 256 entries come back in order with negligible chance
    assert_ne!(p, want);
}

#[test]
fn permute_touches_only_the_prefix() {
    let mut p: Vec<i32> = (0..20).collect();
    permute(&mut p, 8);
    assert_eq!(&p[8..], &(8..20).collect::<Vec<i32>>()[..]);
    let mut head = p[..8].to_vec();
    head.sort();
    assert_eq!(head, (0..8).collect::<Vec<i32>>());
    let mut q = vec![4, 4, 1];
    permute(&mut q, 3);
    q.sort();
    assert_eq!(q, vec![1, 4, 4]);
    let mut e: Vec<i32> = Vec::new();
    permute(&mut e, 0);
    assert!(e.is_empty());
}

#[test]
fn lattice_hash_wraps_every_256() {
    let t = PermTables::new();
    for &(i, j, k) in &[(0, 0, 0), (3, 17, 255), (100, -5, 42), (-1, -256, 7)] {
        let h = t.hash(i, j, k);
        assert!(h < POINT_COUNT);
        assert_eq!(h, t.hash(i + 256, j, k));
        assert_eq!(h, t.hash(i, j - 512, k));
        assert_eq!(h, t.hash(i, j, k + 256 * 3));
    }
    assert_eq!(t.hash(-1, 0, 0), t.hash(255, 0, 0));
    assert_eq!(t.hash(i32::MIN, 0, 0), t.hash(0, 0, 0));
    assert_eq!(t.hash(i32::MAX, 0, 0), t.hash(255, 0, 0));
}

#[test]
fn lattice_hash_reaches_many_slots() {
    let t = PermTables::new();
    let mut seen = vec![false; POINT_COUNT];
    for i in 0..256 {
        seen[t.hash(i, 0, 0)] = true;
    }
    // with y and z fixed, the slot is a bijection of x
    assert!(seen.iter().all(|s| *s));
}

#[test]
fn image_texture_lookup() {
    // 2 by 2 image: row 0 = (1,2,3) (4,5,6); row 1 = (7,8,9) (10,11,12)
    let data: Vec<u8> = (1..=12).collect();
    let tex = ImageTexture::from_rgb8(data, 2, 2);
    assert!(!tex.empty());
    assert_eq!(tex.texel(0, 0), [1, 2, 3]);
    assert_eq!(tex.texel(1, 0), [4, 5, 6]);
    assert_eq!(tex.texel(0, 1), [7, 8, 9]);
    assert_eq!(tex.texel(1, 1), [10, 11, 12]);
    // coordinates past the last column or row are cut down to it
    assert_eq!(tex.texel(2, 0), [4, 5, 6]);
    assert_eq!(tex.texel(0, 9), [7, 8, 9]);
    assert_eq!(tex.texel(u32::MAX, u32::MAX), [10, 11, 12]);
}

#[test]
fn image_texture_wide_image() {
    let data: Vec<u8> = (0..9).collect();
    let tex = ImageTexture::from_rgb8(data, 3, 1);
    assert_eq!(tex.texel(2, 0), [6, 7, 8]);
    assert_eq!(tex.texel(1, 5), [3, 4, 5]);
}

#[test]
fn image_texture_default_is_empty() {
    assert!(ImageTexture::default().empty());
    assert!(ImageTexture::from_rgb8(Vec::new(), 0, 0).empty());
}

#[test]
fn bvh_single_object_is_a_leaf() {
    let t = BvhTree::build(&vec![same_keys(3)]);
    assert!(matches!(t, BvhTree::Leaf(0)));
}

#[test]
fn bvh_two_objects_in_key_order() {
    let t = BvhTree::build(&vec![same_keys(9), same_keys(2)]);
    match t {
        BvhTree::Node(l, r) => {
            assert!(matches!(*l, BvhTree::Leaf(1)));
            assert!(matches!(*r, BvhTree::Leaf(0)));
        }
        _ => panic!("two objects make a node"),
    }
}

#[test]
fn bvh_sorts_before_splitting() {
    let keys: Vec<AxisKeys> = (0..4).map(|i| same_keys(100 - i)).collect();
    let t = BvhTree::build(&keys);
    let mut v = Vec::new();
    leaves(&t, &mut v);
    assert_eq!(v, vec![3, 2, 1, 0]);
}

#[test]
fn bvh_covers_each_object_once() {
    let keys: Vec<AxisKeys> = (0..57u64)
        .map(|i| AxisKeys { x: (i * 37) % 57, y: (i * 11) % 57, z: 57 - i })
        .collect();
    let t = BvhTree::build(&keys);
    let mut v = Vec::new();
    leaves(&t, &mut v);
    v.sort();
    assert_eq!(v, (0..57).collect::<Vec<usize>>());
    check_median_split(&t);
}

#[test]
fn bvh_equal_keys() {
    let keys = vec![same_keys(5); 6];
    let t = BvhTree::build(&keys);
    let mut v = Vec::new();
    leaves(&t, &mut v);
    v.sort();
    assert_eq!(v, vec![0, 1, 2, 3, 4, 5]);
    check_median_split(&t);
}

#[test]
fn axis_keys_by_axis() {
    let k = AxisKeys { x: 1, y: 2, z: 3 };
    assert_eq!(k.on_axis(0), 1);
    assert_eq!(k.on_axis(1), 2);
    assert_eq!(k.on_axis(2), 3);
}

#[test]
fn mesh_triangles_groups_of_three() {
    let idx = vec![0u32, 1, 2, 2, 3, 0, 1];
    let tris = mesh_triangles(&idx, 4).unwrap();
    assert_eq!(tris, vec![[0, 1, 2], [2, 3, 0]]);
}

#[test]
fn mesh_triangles_rejects_missing_point() {
    assert_eq!(mesh_triangles(&vec![0, 1, 4], 4), None);
    // an index in the dropped trailing group is not looked at
    assert_eq!(mesh_triangles(&vec![0, 1, 2, 9], 3), Some(vec![[0, 1, 2]]));
    assert_eq!(mesh_triangles(&Vec::new(), 0), Some(Vec::new()));
}

#[test]
fn empty_material_default() {
    let m = EmptyMaterial::default();
    let _copy = m;
    let _again = m;
}

#[test]
fn write_batch_sets_listed_pixels() {
    let mut fb = Framebuffer::new(3, 2);
    fb.set(0, 0, [5, 5, 5]);
    let batch = vec![((1, 0), [1, 2, 3]), ((2, 1), [4, 5, 6]), ((1, 0), [7, 8, 9])];
    fb.write_batch(&batch);
    assert_eq!(fb.get(1, 0), [7, 8, 9]);
    assert_eq!(fb.get(2, 1), [4, 5, 6]);
    assert_eq!(fb.get(0, 0), [5, 5, 5]);
    assert_eq!(fb.get(0, 1), [0, 0, 0]);
    fb.write_batch(&Vec::new());
    assert_eq!(fb.get(1, 0), [7, 8, 9]);
}

#[test]
fn allocated_batches_fill_every_pixel_once() {
    let (w, h) = (7, 5);
    let (buckets, _) = pixel_allocate(w, h, 4, true);
    let mut fb = Framebuffer::new(w, h);
    for b in &buckets {
        let batch: Vec<((usize, usize), [u8; 3])> =
            b.iter().map(|&(x, y)| ((x, y), [x as u8, y as u8, 1])).collect();
        fb.write_batch(&batch);
    }
    for y in 0..h {
        for x in 0..w {
            assert_eq!(fb.get(x, y), [x as u8, y as u8, 1]);
        }
    }
}
