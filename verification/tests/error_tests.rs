//! What errors of the database client are to a caller.
use clickhouse::error::Error as ChError;
use clickhouse_usage_collector_plugin::error::{map_ch_err, map_ch_failure, ChFailure};
use clickhouse_usage_collector_plugin::model::UsageCollectorPluginError;

#[test]
fn network_error_maps_to_transient() {
    let err = ChError::Network(Box::new(std::io::Error::other("connection refused")));
    assert!(matches!(map_ch_err(&err), UsageCollectorPluginError::Transient { .. }));
}

#[test]
fn timed_out_maps_to_transient() {
    let err = ChError::TimedOut;
    assert!(matches!(map_ch_err(&err), UsageCollectorPluginError::Transient { .. }));
}

#[test]
fn row_not_found_maps_to_internal() {
    let err = ChError::RowNotFound;
    assert!(matches!(map_ch_err(&err), UsageCollectorPluginError::Internal(_)));
}

/// Responses that look syntactically wrong are worth retrying.
#[test]
fn bad_response_maps_to_transient() {
    let err = ChError::BadResponse("unexpected response".to_owned());
    assert!(matches!(map_ch_err(&err), UsageCollectorPluginError::Transient { .. }));
}

#[test]
fn error_texts_are_kept() {
    let err = ChError::BadResponse("unexpected response".to_owned());
    match map_ch_err(&err) {
        UsageCollectorPluginError::Transient { detail, retry_after_seconds } => {
            assert_eq!(detail, "bad response: unexpected response");
            assert_eq!(retry_after_seconds, None);
        }
        other => panic!("unexpected error: {other:?}"),
    }
    match map_ch_err(&ChError::NotEnoughData) {
        UsageCollectorPluginError::Internal(text) => {
            assert_eq!(text, ChError::NotEnoughData.to_string());
        }
        other => panic!("unexpected error: {other:?}"),
    }
}

#[test]
fn failures_are_classified_by_their_variant() {
    for failure in [
        ChFailure::Network("n".to_owned()),
        ChFailure::TimedOut("t".to_owned()),
        ChFailure::BadResponse("b".to_owned()),
    ] {
        assert!(matches!(
            map_ch_failure(failure),
            UsageCollectorPluginError::Transient { retry_after_seconds: None, .. }
        ));
    }
    assert!(matches!(
        map_ch_failure(ChFailure::Other("o".to_owned())),
        UsageCollectorPluginError::Internal(text) if text == "o"
    ));
}
