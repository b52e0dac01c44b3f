use kvs::engine::kv::KvStore;
use kvs::engine::KvsEngine;
use kvs::error::KVStoreError;
use kvs::server::{
    handle_request, respond_done, respond_get, EngineType, KvServer, Request, Response,
};
use kvs::thread_pool::ThreadPool;

struct InlinePool;

impl ThreadPool for InlinePool {
    fn new(_thread: u32) -> Result<Self, KVStoreError> {
        Ok(InlinePool)
    }

    fn spawn<F>(&self, job: F)
    where
        F: FnOnce() + Send + 'static,
    {
        job()
    }
}

fn text(response: Response) -> String {
    match response {
        Response::Success(Some(value)) => format!("value {}", value),
        Response::Success(None) => "nothing".to_string(),
        Response::Failure(message) => format!("error {}", message),
    }
}

#[test]
fn engine_names() {
    assert_eq!(EngineType::KvStore.name(), "kvs");
    assert_eq!(EngineType::SledKvStore.name(), "sled");
}

#[test]
fn error_messages() {
    assert_eq!(KVStoreError::KeyNotFound.message(), "Key not found");
    assert_eq!(KVStoreError::Io.message(), "I/O error");
    assert_eq!(KVStoreError::Encoding.message(), "Encoding error");
    assert_eq!(KVStoreError::UnknownCommandType.message(), "Unknown command type");
}

#[test]
fn responses_follow_the_engine() {
    assert_eq!(text(respond_get(Ok(Some("v".to_string())))), "value v");
    assert_eq!(text(respond_get(Ok(None))), "nothing");
    assert_eq!(text(respond_get(Err(KVStoreError::Io))), "error I/O error");
    assert_eq!(text(respond_done(Ok(()))), "nothing");
    assert_eq!(
        text(respond_done(Err(KVStoreError::KeyNotFound))),
        "error Key not found"
    );
}

#[test]
fn requests_are_served() {
    let mut store = KvStore::open(Vec::new()).unwrap();
    let get = |key: &str| Request::GET(key.to_string());
    assert_eq!(text(handle_request(&mut store, get("k"))), "nothing");
    let set = Request::SET("k".to_string(), "v".to_string());
    assert_eq!(text(handle_request(&mut store, set)), "nothing");
    assert_eq!(text(handle_request(&mut store, get("k"))), "value v");
    let rm = Request::RM("k".to_string());
    assert_eq!(text(handle_request(&mut store, rm.clone())), "nothing");
    assert_eq!(text(handle_request(&mut store, rm)), "error Key not found");
    assert_eq!(text(handle_request(&mut store, get("k"))), "nothing");
}

#[test]
fn server_keeps_its_engine_and_pool() {
    let store = KvStore::open(Vec::new()).unwrap();
    let pool = InlinePool::new(4).unwrap();
    let mut server = KvServer::new(store, pool);
    server.pool.spawn(|| {});
    server.engine.set("k".to_string(), "v".to_string()).unwrap();
    assert_eq!(server.engine.get("k".to_string()), Ok(Some("v".to_string())));
}

struct MapEngine {
    map: std::collections::BTreeMap<String, String>,
    fail_reads: bool,
}

impl KvsEngine for MapEngine {
    fn set(&mut self, key: String, value: String) -> Result<(), KVStoreError> {
        self.map.insert(key, value);
        Ok(())
    }

    fn get(&mut self, key: String) -> Result<Option<String>, KVStoreError> {
        if self.fail_reads {
            return Err(KVStoreError::Io);
        }
        Ok(self.map.get(&key).cloned())
    }

    fn remove(&mut self, key: String) -> Result<(), KVStoreError> {
        match self.map.remove(&key) {
            Some(_) => Ok(()),
            None => Err(KVStoreError::KeyNotFound),
        }
    }
}

#[test]
fn requests_are_served_by_any_engine() {
    let mut engine = MapEngine { map: std::collections::BTreeMap::new(), fail_reads: false };
    let set = Request::SET("a".to_string(), "1".to_string());
    assert_eq!(text(handle_request(&mut engine, set)), "nothing");
    assert_eq!(text(handle_request(&mut engine, Request::GET("a".to_string()))), "value 1");
    engine.fail_reads = true;
    assert_eq!(
        text(handle_request(&mut engine, Request::GET("a".to_string()))),
        "error I/O error"
    );
    assert_eq!(
        text(handle_request(&mut engine, Request::RM("b".to_string()))),
        "error Key not found"
    );
}

#[test]
fn the_store_is_an_engine() {
    fn through<E: KvsEngine>(engine: &mut E) -> Vec<Result<Option<String>, KVStoreError>> {
        let mut seen = Vec::new();
        seen.push(engine.set("k".to_string(), "v".to_string()).map(|_| None));
        seen.push(engine.get("k".to_string()));
        seen.push(engine.remove("k".to_string()).map(|_| None));
        seen.push(engine.remove("k".to_string()).map(|_| None));
        seen.push(engine.get("k".to_string()));
        seen
    }
    let mut store = KvStore::open(Vec::new()).unwrap();
    assert_eq!(
        through(&mut store),
        vec![
            Ok(None),
            Ok(Some("v".to_string())),
            Ok(None),
            Err(KVStoreError::KeyNotFound),
            Ok(None),
        ]
    );
}
