use array_vis_bench::drivers::{merge, partition, rotation, DriverCtx};

#[test]
fn rotation_driver_emits_expected_bodies() {
    let code = rotation::driver(&DriverCtx { abi: "avb_abi" }).unwrap();
    assert!(code.run_default_body.contains("run_rotation_with_input"));
    assert!(code.run_default_body.contains("<Ty as avb_abi::Rotator>"));
    assert!(code.run_default_body.contains("rotate_dyn"));
    assert!(code.run_correct_body.contains("assert_rotations"));
}

#[test]
fn merge_driver_renders_expected_bodies() {
    let code = merge::driver(&DriverCtx { abi: "avb_abi" }).unwrap();
    assert!(code.run_default_body.contains("run_merge_with_input"));
    assert!(code.run_default_body.contains("<Ty as avb_abi::Merger>"));
    assert!(code.run_default_body.contains("merge_dyn"));
    assert!(code.run_correct_body.contains("assert_merges"));
}

#[test]
fn emits_partition_bodies() {
    let code = partition::driver(&DriverCtx { abi: "avb_abi" }).unwrap();
    assert!(code.run_default_body.contains("run_partition_with_input"));
    assert!(code.run_default_body.contains("<Ty as avb_abi::Partitioner>"));
    assert!(code.run_default_body.contains("part_dyn"));
    assert!(code.run_correct_body.contains("assert_partitions"));
}
