use splatrs::scene::{descending_key_order, select_most_important, sh_degree_from_rest_count};

/// An integer key that orders as `value.total_cmp` does.
fn order_key(value: f32) -> i32 {
    let bits = value.to_bits() as i32;
    bits ^ ((((bits >> 31) as u32) >> 1) as i32)
}

fn sigmoid(value: f32) -> f32 {
    if value >= 0.0 {
        1.0 / (1.0 + (-value).exp())
    } else {
        let z = value.exp();
        z / (1.0 + z)
    }
}

fn importance(opacity_logit: f32, log_scale: f32) -> i32 {
    order_key((3.0 * log_scale).exp() * sigmoid(opacity_logit))
}

#[test]
fn max_splats_caps_loaded_rows() {
    let keys = [importance(0.0, -2.0), importance(0.0, -2.0)];
    assert_eq!(select_most_important(&keys, 1).len(), 1);
}

#[test]
fn max_splats_prefers_high_importance_gaussians() {
    let keys = [importance(-8.0, -5.0), importance(8.0, -1.0), importance(0.0, -4.0)];
    let sampled = select_most_important(&keys, 1);
    assert_eq!(sampled.len(), 1);
    assert_eq!(sampled[0], 1);
}

#[test]
fn max_splats_keeps_original_order_after_importance_selection() {
    let keys = [importance(8.0, -1.0), importance(-8.0, -5.0), importance(7.0, -1.0)];
    let positions: Vec<f32> = select_most_important(&keys, 2).into_iter().map(|i| i as f32).collect();
    assert_eq!(positions, vec![0.0, 2.0]);
}

#[test]
fn selection_keeps_everything_under_the_limit() {
    assert_eq!(select_most_important(&[5, 1, 3], 3), vec![0, 1, 2]);
    assert_eq!(select_most_important(&[5, 1, 3], 10), vec![0, 1, 2]);
    assert!(select_most_important(&[5, 1, 3], 0).is_empty());
}

#[test]
fn depth_sort_orders_back_to_front() {
    let depths = [1.0_f32, 5.0, 3.0];
    let keys: Vec<i32> = depths.iter().map(|z| order_key(z * z)).collect();
    let order = descending_key_order(&keys);
    let sorted: Vec<f32> = order.iter().map(|&i| depths[i]).collect();
    assert_eq!(sorted, vec![5.0, 3.0, 1.0]);
}

#[test]
fn depth_sort_keeps_ties_in_index_order() {
    assert_eq!(descending_key_order(&[2, 7, 2, -1, 7]), vec![1, 4, 0, 2, 3]);
    assert!(descending_key_order(&[]).is_empty());
}

#[test]
fn detected_sh_degree_uses_rest_coefficient_count() {
    assert_eq!(sh_degree_from_rest_count(Some(24)), 2);
}

#[test]
fn sh_degree_for_each_coefficient_count() {
    assert_eq!(sh_degree_from_rest_count(None), 0);
    assert_eq!(sh_degree_from_rest_count(Some(0)), 0);
    assert_eq!(sh_degree_from_rest_count(Some(9)), 1);
    assert_eq!(sh_degree_from_rest_count(Some(45)), 3);
    assert_eq!(sh_degree_from_rest_count(Some(5)), 3);
}

#[test]
fn selection_breaks_ties_toward_earlier_items() {
    assert_eq!(select_most_important(&[3, 9, 3, 3, 1], 2), vec![0, 1]);
    assert_eq!(select_most_important(&[3, 9, 3, 3, 1], 3), vec![0, 1, 2]);
}

#[test]
fn selection_is_repeatable() {
    let keys = [4, -2, 4, 8, 0, 8, 4];
    for limit in 0..8 {
        assert_eq!(select_most_important(&keys, limit), select_most_important(&keys, limit));
    }
}
