//! What a network front end needs from the store: the requests it accepts,
//! the responses it sends, and how one is answered with the other.

use vstd::prelude::*;
use crate::engine::KvsEngine;
use crate::error::KVStoreError;
use crate::thread_pool::ThreadPool;

verus! {

/// The storage engines that a server can be started with.
#[derive(Debug, Clone, Copy, PartialEq, Eq, Structural)]
pub enum EngineType {
    KvStore,
    SledKvStore,
}

impl EngineType {
    /// The engine's name as text.
    pub open spec fn name_text(self) -> Seq<char> {
        match self {
            EngineType::KvStore => "kvs"@,
            EngineType::SledKvStore => "sled"@,
        }
    }

    /// The engine's name, as it is written in a data directory.
    pub fn name(&self) -> (s: String)
        ensures
            s@ == self.name_text(),
    {
        match self {
            EngineType::KvStore => "kvs".to_owned(),
            EngineType::SledKvStore => "sled".to_owned(),
        }
    }
}

/// What a client asks for.
#[derive(Debug, Clone)]
pub enum Request {
    GET(String),
    SET(String, String),
    RM(String),
}

/// What a client is told.
#[derive(Debug, Clone)]
pub enum Response {
    /// The request was served. A `GET` carries the value, if there is one.
    Success(Option<String>),
    /// The request failed, with the message of the error.
    Failure(String),
}

/// The response to a `GET`, from what the engine returned.
pub fn respond_get(result: Result<Option<String>, KVStoreError>) -> (response: Response)
    ensures
        match result {
            Ok(value) => response == Response::Success(value),
            Err(e) => response matches Response::Failure(message) && message@ == e.message_text(),
        },
{
    match result {
        Ok(value) => Response::Success(value),
        Err(e) => Response::Failure(e.message()),
    }
}

/// The response to a `SET` or an `RM`, from what the engine returned.
pub fn respond_done(result: Result<(), KVStoreError>) -> (response: Response)
    ensures
        match result {
            Ok(()) => response == Response::Success(None),
            Err(e) => response matches Response::Failure(message) && message@ == e.message_text(),
        },
{
    match result {
        Ok(()) => Response::Success(None),
        Err(e) => Response::Failure(e.message()),
    }
}

/// `response` is what `respond_get` answers to `result`.
pub open spec fn answers_get(result: Result<Option<String>, KVStoreError>, response: Response) -> bool {
    match result {
        Ok(value) => response == Response::Success(value),
        Err(e) => response matches Response::Failure(message) && message@ == e.message_text(),
    }
}

/// `response` is what `respond_done` answers to `result`.
pub open spec fn answers_done(result: Result<(), KVStoreError>, response: Response) -> bool {
    match result {
        Ok(()) => response == Response::Success(None),
        Err(e) => response matches Response::Failure(message) && message@ == e.message_text(),
    }
}

/// Serves one request on an engine: the engine's `get`, `set` or `remove`
/// is called once, on the engine as it is and with the key and value of
/// the request; the engine is left as that call leaves it; and the response
/// is what `respond_get` (for a `GET`) or `respond_done` answers to what
/// the call returned. What the engine holds afterwards, and whether it
/// fails, is the engine's affair.
pub fn handle_request<E: KvsEngine>(engine: &mut E, request: Request) -> (response: Response)
    requires
        old(engine).inv(),
    ensures
        final(engine).inv(),
        match request {
            Request::GET(key) => exists|e: &mut E, result: Result<Option<String>, KVStoreError>|
                *e == *old(engine) && *final(e) == *final(engine) && #[trigger] call_ensures(
                    E::get,
                    (e, key),
                    result,
                ) && answers_get(result, response),
            Request::SET(key, value) => exists|e: &mut E, result: Result<(), KVStoreError>|
                *e == *old(engine) && *final(e) == *final(engine) && #[trigger] call_ensures(
                    E::set,
                    (e, key, value),
                    result,
                ) && answers_done(result, response),
            Request::RM(key) => exists|e: &mut E, result: Result<(), KVStoreError>|
                *e == *old(engine) && *final(e) == *final(engine) && #[trigger] call_ensures(
                    E::remove,
                    (e, key),
                    result,
                ) && answers_done(result, response),
        },
{
    // The engine is called through function values, so that the contract
    // can speak of what each call ensures.
    match request {
        Request::GET(key) => {
            let get = E::get;
            let result = get(engine, key);
            respond_get(result)
        },
        Request::SET(key, value) => {
            let set = E::set;
            let result = set(engine, key, value);
            respond_done(result)
        },
        Request::RM(key) => {
            let remove = E::remove;
            let result = remove(engine, key);
            respond_done(result)
        },
    }
}

/// A server: an engine, and the pool that runs its connections.
pub struct KvServer<E, P: ThreadPool> {
    pub engine: E,
    pub pool: P,
}

impl<E, P: ThreadPool> KvServer<E, P> {
    /// A server over `engine` that hands its connections to `pool`.
    pub fn new(engine: E, pool: P) -> (server: Self)
        ensures
            server.engine == engine,
            server.pool == pool,
    {
        KvServer { engine, pool }
    }
}

} // verus!
