//! Explicit provenance and redistribution authorization for motion assets.

use vstd::prelude::*;
use vstd::utf8::encode_utf8;
use crate::text::{is_hash, is_hash_spec};

verus! {

pub const PROVENANCE_SCHEMA_VERSION: u32 = 1;

#[derive(Clone, Debug, PartialEq, Eq)]
pub struct MotionAssetProvenanceV1 {
    pub schema_version: u32,
    pub asset_id: String,
    pub source_uri: String,
    pub content_hash: String,
    pub license_id: String,
    pub redistribution_allowed: bool,
    pub terms_reference: String,
    pub checkpoint_hash: Option<String>,
}

#[derive(Clone, Debug, PartialEq, Eq)]
pub enum ProvenanceError {
    UnsupportedVersion,
    EmptyField(&'static str),
    InvalidContentHash,
    RedistributionNotAllowed,
    InvalidCheckpointHash,
    AbsoluteSourcePath,
}

/// A source path that starts at the filesystem root or a home directory.
pub open spec fn is_absolute_source(uri: Seq<char>) -> bool {
    let bytes = encode_utf8(uri);
    bytes.len() > 0 && (bytes[0] == 47 || bytes[0] == 126)
}

/// The provenance record fails no check.
pub open spec fn provenance_is_valid(p: MotionAssetProvenanceV1) -> bool {
    &&& p.schema_version == PROVENANCE_SCHEMA_VERSION
    &&& p.asset_id@.len() > 0
    &&& p.source_uri@.len() > 0
    &&& p.license_id@.len() > 0
    &&& p.terms_reference@.len() > 0
    &&& !is_absolute_source(p.source_uri@)
    &&& is_hash_spec(encode_utf8(p.content_hash@))
    &&& p.redistribution_allowed
    &&& (p.checkpoint_hash matches Some(h) ==> is_hash_spec(encode_utf8(h@)))
}

impl MotionAssetProvenanceV1 {
    /// Checks run in a fixed order; the first failure is reported.
    pub fn validate(&self) -> (r: Result<(), ProvenanceError>)
        ensures
            r is Ok <==> provenance_is_valid(*self),
            self.schema_version != PROVENANCE_SCHEMA_VERSION ==> r == Err::<(), ProvenanceError>(
                ProvenanceError::UnsupportedVersion,
            ),
            self.schema_version == PROVENANCE_SCHEMA_VERSION && self.asset_id@.len() == 0 ==> (r
                matches Err(ProvenanceError::EmptyField(f)) && f@ == "asset_id"@),
            self.schema_version == PROVENANCE_SCHEMA_VERSION && self.asset_id@.len() > 0
                && self.source_uri@.len() == 0 ==> (r matches Err(ProvenanceError::EmptyField(f))
                && f@ == "source_uri"@),
            self.schema_version == PROVENANCE_SCHEMA_VERSION && self.asset_id@.len() > 0
                && self.source_uri@.len() > 0 && self.license_id@.len() == 0 ==> (r matches Err(
                ProvenanceError::EmptyField(f),
            ) && f@ == "license_id"@),
            self.schema_version == PROVENANCE_SCHEMA_VERSION && self.asset_id@.len() > 0
                && self.source_uri@.len() > 0 && self.license_id@.len() > 0
                && self.terms_reference@.len() == 0 ==> (r matches Err(
                ProvenanceError::EmptyField(f),
            ) && f@ == "terms_reference"@),
            ({
                let fields_ok = self.schema_version == PROVENANCE_SCHEMA_VERSION
                    && self.asset_id@.len() > 0 && self.source_uri@.len() > 0
                    && self.license_id@.len() > 0 && self.terms_reference@.len() > 0;
                &&& fields_ok && is_absolute_source(self.source_uri@) ==> r == Err::<
                    (),
                    ProvenanceError,
                >(ProvenanceError::AbsoluteSourcePath)
                &&& fields_ok && !is_absolute_source(self.source_uri@) && !is_hash_spec(
                    encode_utf8(self.content_hash@),
                ) ==> r == Err::<(), ProvenanceError>(ProvenanceError::InvalidContentHash)
                &&& fields_ok && !is_absolute_source(self.source_uri@) && is_hash_spec(
                    encode_utf8(self.content_hash@),
                ) && !self.redistribution_allowed ==> r == Err::<(), ProvenanceError>(
                    ProvenanceError::RedistributionNotAllowed,
                )
                &&& fields_ok && !is_absolute_source(self.source_uri@) && is_hash_spec(
                    encode_utf8(self.content_hash@),
                ) && self.redistribution_allowed && !provenance_is_valid(*self) ==> r == Err::<
                    (),
                    ProvenanceError,
                >(ProvenanceError::InvalidCheckpointHash)
            }),
    {
        if self.schema_version != PROVENANCE_SCHEMA_VERSION {
            return Err(ProvenanceError::UnsupportedVersion);
        }
        if self.asset_id.as_str().is_empty() {
            proof {
                reveal_strlit("asset_id");
            }
            return Err(ProvenanceError::EmptyField("asset_id"));
        }
        if self.source_uri.as_str().is_empty() {
            return Err(ProvenanceError::EmptyField("source_uri"));
        }
        if self.license_id.as_str().is_empty() {
            return Err(ProvenanceError::EmptyField("license_id"));
        }
        if self.terms_reference.as_str().is_empty() {
            return Err(ProvenanceError::EmptyField("terms_reference"));
        }
        let uri = self.source_uri.as_str().as_bytes();
        if uri.len() > 0 && (uri[0] == 47 || uri[0] == 126) {
            return Err(ProvenanceError::AbsoluteSourcePath);
        }
        if !is_hash(self.content_hash.as_str()) {
            return Err(ProvenanceError::InvalidContentHash);
        }
        if !self.redistribution_allowed {
            return Err(ProvenanceError::RedistributionNotAllowed);
        }
        match &self.checkpoint_hash {
            Some(hash) => {
                if !is_hash(hash.as_str()) {
                    return Err(ProvenanceError::InvalidCheckpointHash);
                }
            },
            None => {},
        }
        Ok(())
    }
}

} // verus!
