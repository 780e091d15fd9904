use approval_distribution::batching::{ensure_size_not_zero, MAX_APPROVAL_BATCH_SIZE, MAX_ASSIGNMENT_BATCH_SIZE};

#[test]
fn const_ensure_size_not_zero() {
    ensure_size_not_zero(MAX_ASSIGNMENT_BATCH_SIZE);
    ensure_size_not_zero(MAX_APPROVAL_BATCH_SIZE);
}
