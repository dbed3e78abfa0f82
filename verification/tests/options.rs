use gbx_grobner::f4::{F4Error, F4Options, F4ReducerKind};

#[test]
fn default_options_are_valid() {
    let opts = F4Options::default();

    assert!(opts.validate().is_ok());
}

#[test]
fn default_reducer_is_roman() {
    let opts = F4Options::default();

    assert_eq!(opts.reducer_kind, F4ReducerKind::Roman);
}

#[test]
fn zero_batch_size_is_invalid() {
    let opts = F4Options { batch_size: 0, ..F4Options::default() };

    assert!(matches!(opts.validate(), Err(F4Error::InvalidBatchSize)));
}

#[test]
fn validated_wraps_valid_options() {
    let opts = F4Options { batch_size: 32, reducer_kind: F4ReducerKind::Dense, ..F4Options::default() };

    let validated = opts.validated().unwrap();

    assert_eq!(validated.batch_size, 32);
    assert_eq!(validated.reducer_kind(), F4ReducerKind::Dense);
    assert_eq!(validated.as_ref().reducer_kind, F4ReducerKind::Dense);
    assert_eq!(validated.into_inner().batch_size, opts.batch_size);
}

#[test]
fn validated_refuses_zero_batch_size() {
    let opts = F4Options { batch_size: 0, ..F4Options::default() };

    assert!(matches!(opts.validated(), Err(F4Error::InvalidBatchSize)));
}
