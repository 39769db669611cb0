use oersted::biotsavart::{select_kernel, IntegrationMethod, Kernel, RequestedField};
use oersted::biotsavart::IntegrationMethod::{Element, Point};
use oersted::biotsavart::RequestedField::{AField, HField};
use oersted::get_nthreads;
use oersted::krylov::KrylovResult;
use oersted::octree::kernels::{select_far_kernel, select_near_kernel, FarKernel};
use oersted::octree::sources::sort_source_vectors;
use oersted::octree::{MultipoleOrder, Source};
use oersted::octree_lists::{self, InteractionList};
use oersted::transient::{ground_nodes, TransientSolver};

#[test]
fn nthreads_requested_and_available() {
    assert_eq!(get_nthreads(0, 8), 8);
    assert_eq!(get_nthreads(4, 8), 4);
    assert_eq!(get_nthreads(8, 8), 8);
    assert_eq!(get_nthreads(16, 8), 8);
    assert_eq!(get_nthreads(1, 1), 1);
}

#[test]
fn multipole_order_from_int() {
    assert!(matches!(MultipoleOrder::from_int(0), MultipoleOrder::Monopole));
    assert!(matches!(MultipoleOrder::from_int(1), MultipoleOrder::Dipole));
    assert!(matches!(MultipoleOrder::from_int(2), MultipoleOrder::Octupole));
    assert!(matches!(MultipoleOrder::from_int(3), MultipoleOrder::Monopole));
}

#[test]
fn kernel_selection() {
    assert_eq!(select_kernel(AField, Source::CurrentDensity, Element), Kernel::ACurrentTet4);
    assert_eq!(select_kernel(AField, Source::CurrentDensity, Point), Kernel::ACurrentPoint);
    assert_eq!(select_kernel(AField, Source::Magnetization, Element), Kernel::AMagTet4);
    assert_eq!(select_kernel(AField, Source::Magnetization, Point), Kernel::AMagPoint);
    assert_eq!(select_kernel(HField, Source::CurrentDensity, Element), Kernel::HCurrentTet4);
    assert_eq!(select_kernel(HField, Source::CurrentDensity, Point), Kernel::HCurrentPoint);
    assert_eq!(select_kernel(HField, Source::Magnetization, Element), Kernel::HMagTet4);
    assert_eq!(select_kernel(HField, Source::Magnetization, Point), Kernel::HMagPoint);
    assert_eq!(select_near_kernel(HField, Source::Magnetization, Element), Kernel::HMagTet4);
}

#[test]
fn far_kernel_selection() {
    let o = MultipoleOrder::Dipole;
    assert!(matches!(select_far_kernel(AField, Source::CurrentDensity, o), FarKernel::ACurrentNode));
    assert!(matches!(select_far_kernel(HField, Source::CurrentDensity, o), FarKernel::HCurrentNode));
    assert!(matches!(select_far_kernel(AField, Source::Magnetization, o), FarKernel::AMagNode));
    assert!(matches!(select_far_kernel(HField, Source::Magnetization, o), FarKernel::HMagNode));
}

#[test]
fn source_vectors_follow_the_permutation() {
    let v = [1.5f64, 2.5, 3.5];
    let sorted = sort_source_vectors(Some(&v[..]), &[2, 0, 1]);
    assert_eq!(sorted, Some(vec![3.5, 1.5, 2.5]));
    let none: Option<&[f64]> = None;
    assert_eq!(sort_source_vectors(none, &[]), None);
}

#[test]
fn lists_prefix_and_range_match_node_versions() {
    assert_eq!(octree_lists::get_prefix(0b111_010, 2, 1), 0b111);
    let codes: Vec<u64> = vec![1, 2, 9, 10];
    assert_eq!(octree_lists::get_range_in_same_node(&codes, 1, 2, 0, 4), 2);
}

#[test]
fn lists_push_len_and_sort() {
    let mut list = InteractionList::new(4);
    assert_eq!(list.len(), 0);
    list.push(2, 10);
    list.push(0, 11);
    list.push(2, 12);
    list.push(1, 13);
    assert_eq!(list.len(), 4);
    list.sort_by_sources();
    // targets in the order of a stable sort by source; sources stay put
    assert_eq!(list.target_indices, vec![11, 13, 10, 12]);
    assert_eq!(list.source_indices, vec![2, 0, 2, 1]);
}

#[test]
fn ground_first_node() {
    assert_eq!(ground_nodes(), vec![0]);
    assert!(TransientSolver::Dense != TransientSolver::BH);
}

#[test]
fn krylov_outcomes_compare() {
    assert_eq!(KrylovResult::Converged(3), KrylovResult::Converged(3));
    assert_ne!(KrylovResult::Converged(3), KrylovResult::DidNotConverge(3));
}
