use hex_core::branching::{
    focus_branch_weight, weighted_branch_allocations_rotated, weighted_branch_quotas_rotated,
    BranchAllocationError, BranchContributionAllocation,
};
use hex_core::coord::Axial;

#[test]
fn focus_weights_are_three_two_one_by_hex_distance() {
    let parent = Axial::new(0, 0);
    let focus = Axial::new(3, 0);

    assert_eq!(focus_branch_weight(parent, Axial::new(1, 0), focus), 3);
    assert_eq!(focus_branch_weight(parent, Axial::new(1, -1), focus), 2);
    assert_eq!(focus_branch_weight(parent, Axial::new(-1, 0), focus), 1);
}

#[test]
fn focus_on_the_parent_keeps_every_outward_weight_positive() {
    for child in Axial::new(0, 0).neighbors() {
        assert_eq!(focus_branch_weight(Axial::new(0, 0), child, Axial::new(0, 0)), 1);
    }
}

#[test]
fn enclosed_focus_reverses_the_preferred_vector_at_every_local_front() {
    let focus = Axial::new(0, 0);

    for direction in Axial::directions() {
        let parent = focus + direction;
        let inward = focus;
        let outward = parent + direction;

        assert_eq!(focus_branch_weight(parent, inward, focus), 3);
        assert_eq!(focus_branch_weight(parent, outward, focus), 1);

        let split = weighted_branch_quotas_rotated(
            20,
            &[
                focus_branch_weight(parent, inward, focus),
                focus_branch_weight(parent, outward, focus),
            ],
            0,
        )
        .unwrap();
        assert_eq!(split.by_child, vec![15, 5]);
        assert_eq!(split.by_child.iter().sum::<u64>(), 20);
        assert!(split.by_child[1] > 0, "the opposite perimeter stays active");
    }
}

#[test]
fn weighted_quotas_keep_a_positive_baseline_and_conserve_exactly() {
    let result = weighted_branch_quotas_rotated(12, &[3, 2, 1], 0).unwrap();

    assert_eq!(result.by_child, vec![6, 4, 2]);
    assert_eq!(result.by_child.iter().sum::<u64>(), 12);
    assert!(result.by_child.into_iter().all(|quota| quota > 0));
}

#[test]
fn insufficient_strength_visits_distinct_children_in_cursor_order() {
    let first = weighted_branch_quotas_rotated(2, &[3, 2, 1, 3], 1).unwrap();
    assert_eq!(first.by_child, vec![0, 1, 1, 0]);
    assert_eq!(first.next_cursor, 3);

    let second = weighted_branch_quotas_rotated(2, &[3, 2, 1, 3], first.next_cursor).unwrap();
    assert_eq!(second.by_child, vec![1, 0, 0, 1]);
    assert_eq!(second.next_cursor, 1);
}

#[test]
fn equal_weight_remainders_rotate_fairly() {
    let mut cursor = 0;
    let mut results = Vec::new();
    for _ in 0..3 {
        let result = weighted_branch_quotas_rotated(4, &[1, 1, 1], cursor).unwrap();
        cursor = result.next_cursor;
        results.push(result.by_child);
    }

    assert_eq!(results, vec![vec![2, 1, 1], vec![1, 2, 1], vec![1, 1, 2]]);
    assert_eq!(cursor, 0);
}

#[test]
fn sparse_equal_remainders_rotate_past_the_child_that_won_the_tie() {
    let first = weighted_branch_quotas_rotated(5, &[1, 2, 1], 1).unwrap();
    assert_eq!(first.by_child, vec![1, 2, 2]);
    assert_eq!(first.next_cursor, 0);

    let second = weighted_branch_quotas_rotated(5, &[1, 2, 1], first.next_cursor).unwrap();
    assert_eq!(second.by_child, vec![2, 2, 1]);
    assert_eq!(second.next_cursor, 1);
}

#[test]
fn quotas_conserve_across_totals_weights_and_cursors() {
    let weight_sets: &[&[u8]] = &[&[1], &[1, 1], &[3, 2, 1], &[1, 3, 2, 1, 2, 3]];
    for weights in weight_sets {
        for total in 0..=200 {
            for cursor in 0..weights.len() * 2 {
                let result = weighted_branch_quotas_rotated(total, weights, cursor).unwrap();
                assert_eq!(result.by_child.iter().sum::<u64>(), total);
                if total >= weights.len() as u64 {
                    assert!(result.by_child.iter().all(|quota| *quota > 0));
                } else {
                    assert_eq!(
                        result.by_child.iter().filter(|quota| **quota == 1).count(),
                        total as usize
                    );
                }
                assert!(result.next_cursor < weights.len());
            }
        }
    }
}

#[test]
fn contribution_allocations_preserve_sources_and_fill_child_quotas() {
    let result = weighted_branch_allocations_rotated(&[2, 5, 4], &[3, 2, 1], 0).unwrap();

    assert_eq!(
        result.allocations,
        vec![
            BranchContributionAllocation {
                contribution_index: 0,
                child_index: 0,
                amount: 2,
            },
            BranchContributionAllocation {
                contribution_index: 1,
                child_index: 0,
                amount: 3,
            },
            BranchContributionAllocation {
                contribution_index: 1,
                child_index: 1,
                amount: 2,
            },
            BranchContributionAllocation {
                contribution_index: 2,
                child_index: 1,
                amount: 2,
            },
            BranchContributionAllocation {
                contribution_index: 2,
                child_index: 2,
                amount: 2,
            },
        ]
    );
    assert_eq!(
        result
            .allocations
            .iter()
            .map(|allocation| allocation.amount)
            .sum::<u64>(),
        11
    );
}

#[test]
fn invalid_inputs_are_rejected_without_partial_results() {
    assert_eq!(
        weighted_branch_quotas_rotated(1, &[], 0),
        Err(BranchAllocationError::EmptyChildren)
    );
    assert_eq!(
        weighted_branch_quotas_rotated(1, &[1, 0, 1], 0),
        Err(BranchAllocationError::ZeroWeight { child_index: 1 })
    );
    assert_eq!(
        weighted_branch_allocations_rotated(&[u64::MAX, 1], &[1], 0),
        Err(BranchAllocationError::ArithmeticOverflow)
    );
}
