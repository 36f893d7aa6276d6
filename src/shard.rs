use vstd::prelude::*;
use vstd::string::StrSliceExecFns;
use vstd::string::StringExecFns;

verus! {

/// The canonical hyphenated text of a 128-bit UUID.
pub uninterp spec fn uuid_text(v: u128) -> Seq<char>;

/// Relies on uuid::Uuid::new_v4: a fresh random identifier, of which nothing else is known.
#[verifier::external_body]
fn random_uuid() -> (r: u128) {
    uuid::Uuid::new_v4().as_u128()
}

/// Relies on the Display of uuid::Uuid (lower-case hyphenated form, 36 characters).
#[verifier::external_body]
fn uuid_to_text(v: u128) -> (r: String)
    ensures
        r@ == uuid_text(v),
        r@.len() == 36,
{
    uuid::Uuid::from_u128(v).to_string()
}

/// Relies on uuid::Uuid::parse_str: the hyphenated text of a UUID parses back to it.
#[verifier::external_body]
fn uuid_from_text(s: &str) -> (r: Option<u128>)
    ensures
        forall|v: u128| s@ == uuid_text(v) ==> r == Some(v),
{
    uuid::Uuid::parse_str(s).ok().map(|u| u.as_u128())
}

/// The identifier of a shard in the durable store.
#[derive(Clone, Copy, Debug, PartialEq, Eq, Hash, Structural)]
pub struct ShardId {
    pub uuid: u128,
}

/// An error decoding a wire structure.
#[derive(Clone, Debug, PartialEq, Eq)]
pub enum ProtoError {
    /// The text is not `s` followed by a UUID.
    InvalidShardId(String),
}

impl ShardId {
    /// The text of a shard id: `s` followed by the UUID.
    pub open spec fn text(self) -> Seq<char> {
        seq!['s'] + uuid_text(self.uuid)
    }

    /// Mints a fresh random shard id.
    pub fn new() -> (r: ShardId) {
        ShardId { uuid: random_uuid() }
    }

    pub fn to_string(&self) -> (r: String)
        ensures
            r@ == self.text(),
    {
        let text = uuid_to_text(self.uuid);
        proof {
            reveal_strlit("s");
        }
        let prefix = String::from_str("s");
        let r = prefix.concat(text.as_str());
        assert(r@ =~= self.text());
        r
    }

    /// Parses the text of a shard id.
    pub fn parse(s: &str) -> (r: Result<ShardId, ProtoError>)
        ensures
            forall|id: ShardId| s@ == id.text() ==> r == Ok::<ShardId, ProtoError>(id),
            (s@.len() == 0 || s@[0] != 's') ==> r is Err,
    {
        let n = s.unicode_len();
        if n == 0 || s.get_char(0) != 's' {
            return Err(ProtoError::InvalidShardId(s.to_owned()));
        }
        let rest = s.substring_char(1, n);
        proof {
            assert forall|id: ShardId| s@ == id.text() implies rest@ == uuid_text(id.uuid) by {
                assert(rest@ =~= s@.subrange(1, n as int));
                assert(id.text().subrange(1, n as int) =~= uuid_text(id.uuid));
            }
        }
        match uuid_from_text(rest) {
            Some(v) => Ok(ShardId { uuid: v }),
            None => Err(ProtoError::InvalidShardId(s.to_owned())),
        }
    }
}

/// Where the durable store keeps its blobs and its consensus log.
#[derive(Clone, Debug, PartialEq, Eq)]
pub struct PersistLocation {
    pub blob_uri: String,
    pub consensus_uri: String,
}

impl PersistLocation {
    pub fn duplicate(&self) -> (r: PersistLocation)
        ensures
            r == *self,
    {
        PersistLocation { blob_uri: self.blob_uri.clone(), consensus_uri: self.consensus_uri.clone() }
    }
}

/// Metadata required by a storage instance to read a storage collection.
#[derive(Clone, Debug, PartialEq, Eq)]
pub struct CollectionMetadata {
    pub persist_location: PersistLocation,
    pub timestamp_shard_id: ShardId,
    pub persist_shard: ShardId,
}

/// The wire form of `CollectionMetadata`.
#[derive(Clone, Debug, PartialEq, Eq, Default)]
pub struct ProtoCollectionMetadata {
    pub blob_uri: String,
    pub consensus_uri: String,
    pub shard_id: String,
    pub timestamp_shard_id: String,
}

impl CollectionMetadata {
    pub fn into_proto(&self) -> (r: ProtoCollectionMetadata)
        ensures
            r.blob_uri == self.persist_location.blob_uri,
            r.consensus_uri == self.persist_location.consensus_uri,
            r.shard_id@ == self.persist_shard.text(),
            r.timestamp_shard_id@ == self.timestamp_shard_id.text(),
    {
        ProtoCollectionMetadata {
            blob_uri: self.persist_location.blob_uri.clone(),
            consensus_uri: self.persist_location.consensus_uri.clone(),
            shard_id: self.persist_shard.to_string(),
            timestamp_shard_id: self.timestamp_shard_id.to_string(),
        }
    }

    /// Decodes the wire form; each shard id must be the text of a shard id.
    pub fn from_proto(value: ProtoCollectionMetadata) -> (r: Result<CollectionMetadata, ProtoError>)
        ensures
            forall|a: ShardId, b: ShardId|
                value.shard_id@ == a.text() && value.timestamp_shard_id@ == b.text() ==> r == Ok::<
                    CollectionMetadata,
                    ProtoError,
                >(
                    (CollectionMetadata {
                        persist_location: PersistLocation {
                            blob_uri: value.blob_uri,
                            consensus_uri: value.consensus_uri,
                        },
                        timestamp_shard_id: b,
                        persist_shard: a,
                    }),
                ),
            (value.shard_id@.len() == 0 || value.shard_id@[0] != 's') ==> r is Err,
            (value.timestamp_shard_id@.len() == 0 || value.timestamp_shard_id@[0] != 's') ==> r is Err,
    {
        let timestamp_shard_id = match ShardId::parse(value.timestamp_shard_id.as_str()) {
            Ok(id) => id,
            Err(e) => {
                return Err(e);
            },
        };
        let persist_shard = match ShardId::parse(value.shard_id.as_str()) {
            Ok(id) => id,
            Err(e) => {
                return Err(e);
            },
        };
        Ok(
            CollectionMetadata {
                persist_location: PersistLocation {
                    blob_uri: value.blob_uri,
                    consensus_uri: value.consensus_uri,
                },
                timestamp_shard_id,
                persist_shard,
            },
        )
    }
}

} // verus!
