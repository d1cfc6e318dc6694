//! A minimal query front end: it recognizes basic retrieval queries and
//! evaluates them against a collection.

use vstd::prelude::*;
use vstd::utf8::encode_utf8;
use crate::value::Value;
use crate::types::DbError;
use crate::storage::FileStorage;
use crate::collection::DistributedCollection;

verus! {

/// What a parsed query asks for.
#[derive(Clone, Copy, Debug, PartialEq, Eq, Structural)]
pub enum QueryType {
    Get,
    Put,
    Insert,
    Update,
    Delete,
}

/// A parsed query.
pub struct Query {
    pub query_type: QueryType,
    pub collection: String,
    pub conditions: Vec<(String, Value)>,
}

/// Whether the query text opens with a retrieval keyword.
pub open spec fn is_get_query(s: Seq<char>) -> bool {
    &&& encode_utf8(s).len() >= 4
    &&& encode_utf8(s).subrange(0, 4) == encode_utf8("GET "@)
}

/// Parses query text.
pub struct KNIRVQLParser;

impl KNIRVQLParser {
    /// Returns a new parser.
    pub fn new() -> (r: KNIRVQLParser) {
        KNIRVQLParser
    }

    /// Parses a query string: only retrieval queries are recognized.
    pub fn parse(&self, query_str: &str) -> (r: Result<Query, DbError>)
        ensures
            is_get_query(query_str@) <==> (r matches Ok(q) && q.query_type == QueryType::Get),
            !is_get_query(query_str@) ==> (r matches Err(e) && e is Validation),
    {
        let qb = query_str.as_bytes();
        let kb = "GET ".as_bytes();
        proof {
            reveal_strlit("GET ");
            assert(vstd::utf8::is_ascii_chars("GET "@));
            vstd::utf8::is_ascii_chars_encode_utf8("GET "@);
            assert(kb@.len() == 4);
        }
        let matched = if qb.len() < 4 {
            false
        } else {
            qb[0] == kb[0] && qb[1] == kb[1] && qb[2] == kb[2] && qb[3] == kb[3]
        };
        proof {
            if matched {
                assert(qb@.subrange(0, 4) =~= kb@);
            } else {
                if qb@.len() >= 4 && qb@.subrange(0, 4) == kb@ {
                    assert(qb@[0] == kb@[0] && qb@[1] == kb@[1] && qb@[2] == kb@[2] && qb@[3]
                        == kb@[3]) by {
                        assert(qb@.subrange(0, 4)[0] == qb@[0]);
                        assert(qb@.subrange(0, 4)[1] == qb@[1]);
                        assert(qb@.subrange(0, 4)[2] == qb@[2]);
                        assert(qb@.subrange(0, 4)[3] == qb@[3]);
                    }
                }
            }
        }
        if matched {
            Ok(
                Query {
                    query_type: QueryType::Get,
                    collection: "default".to_owned(),
                    conditions: Vec::new(),
                },
            )
        } else {
            Err(DbError::Validation("unsupported query type".to_owned()))
        }
    }
}

impl Query {
    /// Evaluates the query: a retrieval returns every document of the
    /// collection; other kinds are not implemented.
    pub fn execute(&self, storage: &FileStorage, collection: &DistributedCollection) -> (r:
        Result<Vec<Vec<(String, Value)>>, DbError>)
        ensures
            self.query_type == QueryType::Get ==> r is Ok,
            self.query_type != QueryType::Get ==> (r matches Err(e) && e is Validation),
    {
        match self.query_type {
            QueryType::Get => collection.find_all(storage),
            _ => Err(DbError::Validation("query type not implemented".to_owned())),
        }
    }
}

} // verus!
