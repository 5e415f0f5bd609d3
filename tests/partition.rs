use convolver::accumulation::AccumulationBuffer;
use convolver::fast_convolver::ConvolutionMode;
use convolver::partition::{power_of_two, PartitionSet};

#[test]
fn partitions_cover_the_response_with_zero_padding() {
    let set = PartitionSet::new(vec![1, 2, 3, 4, 5], ConvolutionMode::TimeDomain, 2).unwrap();
    assert_eq!(set.partition_count(), 3);
    assert_eq!(set.get_time_partition(0), &[1, 2]);
    assert_eq!(set.get_time_partition(1), &[3, 4]);
    assert_eq!(set.get_time_partition(2), &[5, 0]);
    assert_eq!(set.tap(4), 5);
    assert_eq!(set.tap(5), 0);
}

#[test]
fn frequency_partitions_are_extended_to_two_blocks() {
    let set = PartitionSet::new(vec![1, 2, 3], ConvolutionMode::FrequencyDomain, 2).unwrap();
    assert_eq!(set.partition_count(), 2);
    assert_eq!(set.get_frequency_partition(0), &[1, 2, 0, 0]);
    assert_eq!(set.get_frequency_partition(1), &[3, 0, 0, 0]);
}

#[test]
fn exact_fit_needs_no_extra_partition() {
    let set = PartitionSet::new(vec![7; 8], ConvolutionMode::TimeDomain, 4).unwrap();
    assert_eq!(set.partition_count(), 2);
}

#[test]
fn powers_of_two() {
    assert!(!power_of_two(0));
    assert!(power_of_two(1));
    assert!(power_of_two(64));
    assert!(!power_of_two(12));
    assert!(!power_of_two(3));
}

#[test]
fn accumulation_buffer_drains_and_accumulates() {
    let mut buffer = AccumulationBuffer::new(5);
    buffer.accumulate(0, 4);
    buffer.accumulate(3, -2);
    buffer.accumulate(3, 7);
    let mut dest = vec![9i64; 3];
    buffer.drain_front(&mut dest, 2);
    assert_eq!(dest, vec![4, 0, 9]);
    assert_eq!(buffer.get(0), 0);
    assert_eq!(buffer.get(1), 5);
    assert_eq!(buffer.get(3), 0);
    buffer.reset();
    assert_eq!(buffer.len(), 5);
    assert_eq!(buffer.get(1), 0);
}
