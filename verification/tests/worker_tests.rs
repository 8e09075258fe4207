use password_crack::PasswordWorker;
use password_crack::Probe;
use password_crack::Strategy;
use password_crack::WorkerStatus;
use password_crack::filter_for_worker_index;
use password_crack::make_candidate_stream;

fn zip_hello() -> Vec<u8> {
    vec![80, 75, 3, 4, 20, 0, 1, 0, 0, 0, 0, 0, 33, 0, 178, 3, 181, 173, 26, 0, 0, 0, 14, 0, 0, 0, 5, 0, 0, 0, 97, 46, 116, 120, 116, 50, 251, 133, 130, 129, 167, 139, 214, 31, 236, 140, 74, 33, 4, 186, 70, 16, 43, 145, 150, 211, 198, 92, 66, 227, 117, 80, 75, 1, 2, 20, 0, 20, 0, 1, 0, 0, 0, 0, 0, 33, 0, 178, 3, 181, 173, 26, 0, 0, 0, 14, 0, 0, 0, 5, 0, 0, 0, 0, 0, 0, 0, 0, 0, 0, 0, 0, 0, 0, 0, 0, 0, 97, 46, 116, 120, 116, 80, 75, 5, 6, 0, 0, 0, 0, 1, 0, 1, 0, 51, 0, 0, 0, 61, 0, 0, 0, 0, 0]
}

#[test]
fn run_batch_paces_the_shard() {
    // five candidates, batches of two, no match: two full batches and a
    // final short one
    let strategy = Strategy::PasswordFile(b"p\nq\nr\ns\nt".to_vec());
    let stream = make_candidate_stream(&strategy);
    let sharded = filter_for_worker_index(stream, 1, 1);
    let probe = Probe::Zip { archive: zip_hello(), aes_info: None };
    let mut worker = PasswordWorker::new(probe, sharded, 2);

    let (status, delta) = worker.run_batch();
    assert!(matches!(status, WorkerStatus::InProgress));
    assert_eq!(delta, 2);
    let (status, delta) = worker.run_batch();
    assert!(matches!(status, WorkerStatus::InProgress));
    assert_eq!(delta, 2);
    let (status, delta) = worker.run_batch();
    assert!(matches!(status, WorkerStatus::Exhausted));
    assert_eq!(delta, 1);
}

#[test]
fn run_batch_stops_at_the_match() {
    let strategy = Strategy::PasswordFile(b"x\nhello\ny\nz".to_vec());
    let stream = make_candidate_stream(&strategy);
    let sharded = filter_for_worker_index(stream, 1, 1);
    let probe = Probe::Zip { archive: zip_hello(), aes_info: None };
    let mut worker = PasswordWorker::new(probe, sharded, 10);

    let (status, delta) = worker.run_batch();
    match status {
        WorkerStatus::FoundPassword(p) => assert_eq!(p, "hello"),
        _ => panic!("expected a match"),
    }
    assert_eq!(delta, 2);
}
