use fs_server::service::{Answer, Query, Update};
use fs_server::status::Failure;
use fs_server::{FileSystemImpl, FileSystemServer};

fn content(r: Result<Answer, Failure>) -> Result<Vec<u8>, Failure> {
    match r {
        Ok(Answer::Content(content)) => Ok(content),
        Ok(Answer::Paths(_)) => panic!("a listing in answer to a get"),
        Err(failure) => Err(failure),
    }
}

fn paths(r: Result<Answer, Failure>) -> Result<Vec<String>, Failure> {
    match r {
        Ok(Answer::Paths(paths)) => Ok(paths),
        Ok(Answer::Content(_)) => panic!("bytes in answer to a list"),
        Err(failure) => Err(failure),
    }
}

#[test]
fn service_keeps_the_store_it_was_made_from() {
    let mut fs = FileSystemImpl::default();
    assert_eq!(fs.write("f", vec![4, 2]), Ok(()));
    let service = fs.into_service();
    assert_eq!(content(service.query(&Query::Get { path: "f".to_string() })), Ok(vec![4, 2]));
    assert_eq!(
        paths(service.query(&Query::List { path: "".to_string() })),
        Ok(vec!["f".to_string()])
    );
}

#[test]
fn service_carries_out_updates() {
    let mut service = FileSystemServer::new(FileSystemImpl::new());
    assert_eq!(service.update(Update::Mkdir { path: "d".to_string() }), Ok(()));
    assert_eq!(
        service.update(Update::Write { path: "d/f".to_string(), content: vec![1] }),
        Ok(())
    );
    assert_eq!(content(service.query(&Query::Get { path: "d/f".to_string() })), Ok(vec![1]));
    assert_eq!(
        paths(service.query(&Query::List { path: "/".to_string() })),
        Ok(vec!["d/".to_string()])
    );
}

#[test]
fn service_reports_failures_and_changes_nothing() {
    let mut service = FileSystemImpl::default().into_service();
    assert_eq!(
        service.update(Update::Write { path: "x/y".to_string(), content: vec![1] }),
        Err(Failure::NoSuchDirectory)
    );
    assert_eq!(service.update(Update::Mkdir { path: "".to_string() }), Err(Failure::IllegalDirname));
    assert_eq!(
        content(service.query(&Query::Get { path: "x".to_string() })),
        Err(Failure::NoSuchFile)
    );
    assert_eq!(paths(service.query(&Query::List { path: "".to_string() })), Ok(Vec::new()));
}
