//! Exact values for the small pieces: the hit order, the device layout of a
//! tree, a ray batch and a hit record, the generator, and the counters.

use core::cmp::Ordering;
use spatial_query::gpu::{
    batch_without_dispatch, decode_batch, decode_hit, decode_readback, index_buffer, node_buffer, pack_nodes, pack_rays, pad_or, pad_u32,
    params_buffer, ray_buffer,
};
use spatial_query::hit::{hit_le, hit_ordering, Hit, Overlap};
use spatial_query::rng::{splitmix64, GOLDEN_GAMMA};
use spatial_query::stats::{saturating_product, QueryStats};
use spatial_query::tree::Node;

fn hit(leaf: usize, toi: f32) -> Hit<()> {
    Hit { leaf, toi: toi.to_bits(), payload: () }
}

#[test]
fn hit_order_is_by_distance_then_leaf() {
    assert_eq!(hit_ordering(&hit(3, 1.0), &hit(0, 2.0)), Ordering::Less);
    assert_eq!(hit_ordering(&hit(0, 2.0), &hit(3, 1.0)), Ordering::Greater);
    assert_eq!(hit_ordering(&hit(1, 2.0), &hit(4, 2.0)), Ordering::Less);
    assert_eq!(hit_ordering(&hit(4, 2.0), &hit(1, 2.0)), Ordering::Greater);
    assert_eq!(hit_ordering(&hit(4, 2.0), &hit(4, 2.0)), Ordering::Equal);
    // The total order puts -0.0 before +0.0 and negatives before both.
    assert_eq!(hit_ordering(&hit(9, -0.0), &hit(0, 0.0)), Ordering::Less);
    assert_eq!(hit_ordering(&hit(9, -1.0), &hit(0, -0.0)), Ordering::Less);
    assert!(hit_le(&hit(1, 2.0), &hit(1, 2.0)));
    assert!(hit_le(&hit(1, 2.0), &hit(2, 2.0)));
    assert!(!hit_le(&hit(2, 2.0), &hit(1, 2.0)));
    assert!(!hit_le(&hit(0, 3.0), &hit(1, 2.0)));
}

#[test]
fn hit_order_agrees_with_total_cmp() {
    let tois = [-2.5f32, -0.0, 0.0, 1.0e-30, 1.0, 4.0, 1.0e30, f32::INFINITY];
    for &a in &tois {
        for &b in &tois {
            for (la, lb) in [(0usize, 1usize), (1, 0), (2, 2)] {
                let want = a.total_cmp(&b).then(la.cmp(&lb));
                assert_eq!(hit_ordering(&hit(la, a), &hit(lb, b)), want);
            }
        }
    }
}

#[test]
fn overlap_carries_id_and_leaf() {
    let o = Overlap { id: 42u64, leaf: 7 };
    assert_eq!((o.id, o.leaf), (42, 7));
}

#[test]
fn padding_never_leaves_a_buffer_empty() {
    assert_eq!(pad_u32(&[]), vec![0]);
    assert_eq!(pad_u32(&[5, 6, 7]), vec![5, 6, 7]);
    assert_eq!(pad_or::<f32>(&[], 0.0), vec![0.0]);
    assert_eq!(pad_or(&[1.5f32, 2.5], 0.0), vec![1.5, 2.5]);
}

#[test]
fn hit_records_decode_to_leaf_toi_and_normal() {
    let words: Vec<u32> = vec![
        // ray 0: found
        4.0f32.to_bits(), 17, 1, 0, (-1.0f32).to_bits(), 0, 0, 0,
        // ray 1: nothing
        500.0f32.to_bits(), 0, 0, 0, 0, 0, 0, 0,
    ];
    let h = decode_hit(&words, 0).unwrap();
    assert_eq!(h.leaf, 17);
    assert_eq!(f32::from_bits(h.toi), 4.0);
    assert_eq!(h.normal, [(-1.0f32).to_bits(), 0, 0]);
    assert!(decode_hit(&words, 1).is_none());
    let batch = decode_batch(&words, 2);
    assert_eq!(batch.len(), 2);
    assert_eq!(batch[0].map(|h| (h.leaf, h.toi)), Some((17, 4.0f32.to_bits())));
    assert!(batch[1].is_none());
    assert!(decode_batch(&words, 0).is_empty());
}

#[test]
fn nodes_pack_into_three_vec4s_each() {
    let nodes = vec![
        Node { bounds: ([0u32, 1, 2], [3u32, 4, 5]), child_a: 1, child_b: 2, prim_count: 0 },
        Node { bounds: ([6u32, 7, 8], [9u32, 10, 11]), child_a: 0, child_b: 0, prim_count: 3 },
    ];
    let corners = |b: ([u32; 3], [u32; 3])| b;
    let words = pack_nodes(&nodes, &corners);
    assert_eq!(
        words,
        vec![0, 1, 2, 1, 3, 4, 5, 2, 0, 0, 0, 0, 6, 7, 8, 0, 9, 10, 11, 0, 3, 0, 0, 0]
    );
    let empty: Vec<Node<([u32; 3], [u32; 3])>> = Vec::new();
    assert_eq!(pack_nodes(&empty, &corners), vec![0; 12]);
    assert!(nodes[1].is_leaf() && !nodes[0].is_leaf());
}

#[test]
fn rays_pack_into_two_vec4s_each() {
    let rays = vec![[1u32, 2, 3, 4, 5, 6], [7u32, 8, 9, 10, 11, 12]];
    assert_eq!(pack_rays(&rays), vec![1, 2, 3, 0, 4, 5, 6, 0, 7, 8, 9, 0, 10, 11, 12, 0]);
    assert!(pack_rays(&Vec::new()).is_empty());
}

#[test]
fn splitmix_matches_the_reference_sequence() {
    let (s1, a) = splitmix64(0);
    let (s2, b) = splitmix64(s1);
    let (_, c) = splitmix64(s2);
    assert_eq!(s1, GOLDEN_GAMMA);
    assert_eq!(a, 0xE220_A839_7B1D_CDAF);
    assert_eq!(b, 0x6E78_9E6A_A1B9_65F4);
    assert_eq!(c, 0x06C4_5D18_8009_454F);
    // The state wraps.
    let (s, _) = splitmix64(u64::MAX);
    assert_eq!(s, GOLDEN_GAMMA.wrapping_sub(1));
}

#[test]
fn query_counters_count_one_at_a_time() {
    let mut s = QueryStats::new();
    assert_eq!(s, QueryStats { nodes_visited: 0, aabb_tests: 0, narrow_tests: 0, hits: 0 });
    s.node();
    s.node();
    s.aabb();
    s.narrow();
    s.narrow();
    s.narrow();
    s.hit();
    assert_eq!(s, QueryStats { nodes_visited: 2, aabb_tests: 1, narrow_tests: 3, hits: 1 });
}

#[test]
fn saturating_product_saturates() {
    assert_eq!(saturating_product(3, 4), 12);
    assert_eq!(saturating_product(0, usize::MAX), 0);
    assert_eq!(saturating_product(usize::MAX, 2), usize::MAX);
}

fn bytes_of(words: &[u32]) -> Vec<u8> {
    words.iter().flat_map(|w| w.to_ne_bytes()).collect()
}

#[test]
fn buffers_hold_the_packed_words_in_machine_order() {
    let nodes = vec![
        Node { bounds: ([0u32, 1, 2], [3u32, 4, 5]), child_a: 1, child_b: 2, prim_count: 0 },
        Node { bounds: ([6u32, 7, 8], [9u32, 10, 11]), child_a: 0, child_b: 0, prim_count: 3 },
    ];
    let corners = |b: ([u32; 3], [u32; 3])| b;
    assert_eq!(node_buffer(&nodes, &corners), bytes_of(&pack_nodes(&nodes, &corners)));
    assert_eq!(index_buffer(&[]), bytes_of(&[0]));
    assert_eq!(index_buffer(&[3, 1, 2]), bytes_of(&[3, 1, 2]));
    let rays = vec![[1u32, 2, 3, 4, 5, 6]];
    assert_eq!(ray_buffer(&rays), bytes_of(&pack_rays(&rays)));
    assert_eq!(params_buffer(7, 8, 9), bytes_of(&[7, 8, 9, 0]));
}

#[test]
fn readback_decodes_whole_records_only() {
    let words: Vec<u32> = vec![
        4.0f32.to_bits(), 17, 1, 0, (-1.0f32).to_bits(), 0, 0, 0,
        500.0f32.to_bits(), 0, 0, 0, 0, 0, 0, 0,
    ];
    let bytes: &[u8] = bytemuck::cast_slice(&words);
    let hits = decode_readback(bytes, 2).unwrap();
    assert_eq!(hits.len(), 2);
    assert_eq!(hits[0].map(|h| h.leaf), Some(17));
    assert!(hits[1].is_none());
    // Asking for more records than the buffer holds, or a ragged length, fails.
    assert!(decode_readback(bytes, 3).is_none());
    assert!(decode_readback(&bytes[..bytes.len() - 1], 1).is_none());
}

#[test]
fn batches_that_need_no_dispatch() {
    // An empty batch has no results, whatever the tree.
    let empty = batch_without_dispatch(0, 7).expect("an empty batch is answered");
    assert!(empty.is_empty());
    // Against an empty tree every ray misses.
    let misses = batch_without_dispatch(3, 0).expect("an empty tree is answered");
    assert_eq!(misses.len(), 3);
    assert!(misses.iter().all(|h| h.is_none()));
    // A real batch against a real tree has to be dispatched.
    assert!(batch_without_dispatch(3, 7).is_none());
}
