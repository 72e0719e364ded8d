use pool_indexer::api::{ApiError, NoReply, Status};
use pool_indexer::readiness::{
    readiness, require_admission, require_credential, require_verified, PoolProgress, Readiness,
};

fn error(status: Status, message: &str) -> ApiError {
    ApiError {
        status,
        message: message.into(),
    }
}

#[test]
fn credential_is_required() {
    assert_eq!(require_credential(true), Ok(()));
    assert_eq!(
        require_credential(false),
        Err(error(Status::Unauthorized, "readiness credential required"))
    );
}

#[test]
fn admission_is_required() {
    assert_eq!(require_admission(Ok(Some(5))), Ok(5));
    assert_eq!(
        require_admission::<u8>(Ok(None)),
        Err(error(Status::ServiceUnavailable, "signed admission not configured"))
    );
    assert_eq!(
        require_admission::<u8>(Err("expired".into())),
        Err(error(Status::ServiceUnavailable, "expired"))
    );
}

#[test]
fn verification_is_required() {
    assert_eq!(require_verified(Ok(true)), Ok(()));
    assert_eq!(
        require_verified(Ok(false)),
        Err(error(Status::ServiceUnavailable, "pool verification failed"))
    );
    assert_eq!(
        require_verified(Err(NoReply)),
        Err(error(Status::ServiceUnavailable, "pool verification unavailable"))
    );
}

#[test]
fn canonical_needs_order_paths_and_no_shadow() {
    for flags in 0..8u8 {
        let progress = PoolProgress {
            tree_out_of_order: flags & 1 != 0,
            frozen_paths_ready: flags & 2 != 0,
            shadow_mode: flags & 4 != 0,
            next_block: 11,
            next_leaf: 9,
            confirmed_count: 7,
        };
        assert_eq!(
            readiness(&progress),
            Readiness {
                canonical: flags == 2,
                indexed_through: 10,
                confirmed_count: 7,
                pending_cmx: 2,
            }
        );
    }
}

#[test]
fn counts_do_not_go_below_zero() {
    let progress = PoolProgress {
        tree_out_of_order: false,
        frozen_paths_ready: true,
        shadow_mode: false,
        next_block: 0,
        next_leaf: 3,
        confirmed_count: 7,
    };
    let report = readiness(&progress);
    assert_eq!((report.indexed_through, report.pending_cmx), (0, 0));
}
