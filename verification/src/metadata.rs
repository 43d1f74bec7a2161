//! Canonical execution-profile, library, and MCP identity metadata.

use vstd::prelude::*;
use vstd::string::*;

use crate::digest::Digest;
use crate::identifier::Identifier;
use crate::text::same_text;
use crate::types::Port;
use crate::cbor::value::{spec_utf8, Value, ValueMap};

verus! {

/// Supported HTLK evaluator-core format version.
pub const CORE_VERSION: &'static str = "0.1";

/// MCP protocol version pinned by the current executable profile schema.
pub const MCP_PROTOCOL_VERSION: &'static str = "2025-11-25";

/// Exact engine implementation/data identity, not a running engine instance.
#[derive(Clone, Debug, PartialEq)]
pub struct EngineIdentity {
    name: String,
    version: String,
    data_version: String,
    implementation_digest: Digest,
}

impl EngineIdentity {
    /// The engine name.
    pub closed spec fn spec_name(&self) -> Seq<char> {
        self.name@
    }

    /// The implementation version.
    pub closed spec fn spec_version(&self) -> Seq<char> {
        self.version@
    }

    /// The data-table version.
    pub closed spec fn spec_data_version(&self) -> Seq<char> {
        self.data_version@
    }

    /// The claimed implementation digest.
    pub closed spec fn spec_implementation_digest(&self) -> Digest {
        self.implementation_digest
    }

    /// Exact engine name.
    pub fn name(&self) -> (res: &str)
        ensures
            res@ == self.spec_name(),
    {
        self.name.as_str()
    }

    /// Exact external implementation version; no SemVer rewriting occurs.
    pub fn version(&self) -> (res: &str)
        ensures
            res@ == self.spec_version(),
    {
        self.version.as_str()
    }

    /// Exact data-table/version identity, including an empty string when supplied.
    pub fn data_version(&self) -> (res: &str)
        ensures
            res@ == self.spec_data_version(),
    {
        self.data_version.as_str()
    }

    /// Claimed implementation digest, matched against linked implementations later.
    pub fn implementation_digest(&self) -> (res: Digest)
        ensures
            res == self.spec_implementation_digest(),
    {
        self.implementation_digest
    }
}

/// Pinned core/protocol/engine/policy metadata. Construction does not load
/// engines or verify the referenced policy document or implementation digests.
#[derive(Clone, Debug, PartialEq)]
pub struct ExecutionProfile {
    core_digest: Digest,
    regex_engine: EngineIdentity,
    schema_validator: EngineIdentity,
    uri_template_engine: EngineIdentity,
    policy_document: Digest,
}

impl ExecutionProfile {
    /// The claimed evaluator-core digest.
    pub closed spec fn spec_core_digest(&self) -> Digest {
        self.core_digest
    }

    /// The regex engine identity.
    pub closed spec fn spec_regex_engine(&self) -> EngineIdentity {
        self.regex_engine
    }

    /// The schema validator identity.
    pub closed spec fn spec_schema_validator(&self) -> EngineIdentity {
        self.schema_validator
    }

    /// The URI-template engine identity.
    pub closed spec fn spec_uri_template_engine(&self) -> EngineIdentity {
        self.uri_template_engine
    }

    /// The policy document digest.
    pub closed spec fn spec_policy_document(&self) -> Digest {
        self.policy_document
    }

    /// Supported evaluator-core format version.
    pub fn core_version(&self) -> (res: &'static str)
        ensures
            res@ == CORE_VERSION@,
    {
        CORE_VERSION
    }

    /// Claimed evaluator-core implementation identity.
    pub fn core_digest(&self) -> (res: Digest)
        ensures
            res == self.spec_core_digest(),
    {
        self.core_digest
    }

    /// Supported pinned MCP protocol version.
    pub fn mcp_protocol_version(&self) -> (res: &'static str)
        ensures
            res@ == MCP_PROTOCOL_VERSION@,
    {
        MCP_PROTOCOL_VERSION
    }

    /// Regex engine identity.
    pub fn regex_engine(&self) -> (res: &EngineIdentity)
        ensures
            *res == self.spec_regex_engine(),
    {
        &self.regex_engine
    }

    /// Schema validator identity.
    pub fn schema_validator(&self) -> (res: &EngineIdentity)
        ensures
            *res == self.spec_schema_validator(),
    {
        &self.schema_validator
    }

    /// URI-template engine identity.
    pub fn uri_template_engine(&self) -> (res: &EngineIdentity)
        ensures
            *res == self.spec_uri_template_engine(),
    {
        &self.uri_template_engine
    }

    /// Referenced policy JCS document digest.
    pub fn policy_document(&self) -> (res: Digest)
        ensures
            res == self.spec_policy_document(),
    {
        self.policy_document
    }
}

/// Rank-one signature metadata, with declared variables and positional ports.
#[derive(Debug, PartialEq)]
pub struct FunctionSignature {
    type_parameters: Vec<Identifier>,
    parameters: Vec<Port>,
    result: Port,
}

impl FunctionSignature {
    /// Declared generic variables, in declaration order.
    pub closed spec fn spec_type_parameters(&self) -> Seq<Identifier> {
        self.type_parameters@
    }

    /// Positional parameter ports.
    pub closed spec fn spec_parameters(&self) -> Seq<Port> {
        self.parameters@
    }

    /// Result port.
    pub closed spec fn spec_result(&self) -> Port {
        self.result
    }

    /// Declared generic variables, in declaration order.
    pub fn type_parameters(&self) -> (res: &[Identifier])
        ensures
            res@ == self.spec_type_parameters(),
    {
        self.type_parameters.as_slice()
    }

    /// Positional parameter ports, including their presence rules.
    pub fn parameters(&self) -> (res: &[Port])
        ensures
            res@ == self.spec_parameters(),
    {
        self.parameters.as_slice()
    }

    /// Result type and presence rule.
    pub fn return_port(&self) -> (res: &Port)
        ensures
            *res == self.spec_result(),
    {
        &self.result
    }
}

/// Complete supplied public library signature manifest, functions held in
/// strictly increasing name order.
#[derive(Debug, PartialEq)]
pub struct Library {
    library_id: String,
    version: String,
    implementation_digest: Digest,
    functions: Vec<(Identifier, FunctionSignature)>,
}

/// Strict lexicographic order of byte strings.
pub open spec fn spec_bytes_lt(a: Seq<u8>, b: Seq<u8>) -> bool {
    crate::cbor::value::spec_lex_lt(a, b)
}

/// Function names strictly increase.
pub open spec fn spec_functions_sorted(f: Seq<(Identifier, FunctionSignature)>) -> bool {
    forall|i: int, j: int| 0 <= i < j < f.len() ==> spec_bytes_lt(
        crate::cbor::value::spec_utf8((#[trigger] f[i]).0@),
        crate::cbor::value::spec_utf8((#[trigger] f[j]).0@),
    )
}

impl Library {
    #[verifier::type_invariant]
    spec fn sorted(&self) -> bool {
        spec_functions_sorted(self.functions@)
    }

    /// The registry ID.
    pub closed spec fn spec_library_id(&self) -> Seq<char> {
        self.library_id@
    }

    /// The manifest version.
    pub closed spec fn spec_version(&self) -> Seq<char> {
        self.version@
    }

    /// The claimed implementation digest.
    pub closed spec fn spec_implementation_digest(&self) -> Digest {
        self.implementation_digest
    }

    /// The signatures, in name order.
    pub closed spec fn spec_functions(&self) -> Seq<(Identifier, FunctionSignature)> {
        self.functions@
    }

    /// Exact library registry ID.
    pub fn library_id(&self) -> (res: &str)
        ensures
            res@ == self.spec_library_id(),
    {
        self.library_id.as_str()
    }

    /// Exact manifest version, not a version-selection range.
    pub fn version(&self) -> (res: &str)
        ensures
            res@ == self.spec_version(),
    {
        self.version.as_str()
    }

    /// Claimed linked implementation identity.
    pub fn implementation_digest(&self) -> (res: Digest)
        ensures
            res == self.spec_implementation_digest(),
    {
        self.implementation_digest
    }

    /// Public signatures, exposed in name order.
    pub fn functions(&self) -> (res: &[(Identifier, FunctionSignature)])
        ensures
            res@ == self.spec_functions(),
            spec_functions_sorted(res@),
    {
        proof {
            use_type_invariant(self);
        }
        self.functions.as_slice()
    }

    /// Looks up an exact function name without interpretation or invocation.
    pub fn function(&self, name: &str) -> (res: Option<&FunctionSignature>)
        ensures
            res is Some <==> exists|i: int| 0 <= i < self.spec_functions().len()
                && (#[trigger] self.spec_functions()[i]).0@ == name@,
            res matches Some(sig) ==> exists|i: int| 0 <= i < self.spec_functions().len()
                && (#[trigger] self.spec_functions()[i]).0@ == name@ && self.spec_functions()[i].1 == *sig,
    {
        proof {
            use_type_invariant(self);
        }
        let key = name.as_bytes();
        let mut lo: usize = 0;
        let mut hi: usize = self.functions.len();
        while lo < hi
            invariant
                0 <= lo <= hi <= self.functions@.len(),
                key@ == name.spec_bytes(),
                spec_functions_sorted(self.functions@),
                forall|k: int| 0 <= k < lo ==> spec_bytes_lt(
                    crate::cbor::value::spec_utf8((#[trigger] self.functions@[k]).0@), key@),
                forall|k: int| hi <= k < self.functions@.len() ==> spec_bytes_lt(
                    key@, crate::cbor::value::spec_utf8((#[trigger] self.functions@[k]).0@)),
            decreases hi - lo,
        {
            let mid = lo + (hi - lo) / 2;
            let entry_name = self.functions[mid].0.as_str().as_bytes();
            match crate::cbor::keys::compare_lex(entry_name, key) {
                crate::cbor::keys::KeyOrder::Less => {
                    proof {
                        assert forall|k: int| 0 <= k < mid + 1 implies spec_bytes_lt(
                            crate::cbor::value::spec_utf8((#[trigger] self.functions@[k]).0@), key@) by {
                            if k < mid {
                                crate::cbor::keys::lemma_lex_transitive(
                                    crate::cbor::value::spec_utf8(self.functions@[k].0@),
                                    crate::cbor::value::spec_utf8(self.functions@[mid as int].0@),
                                    key@,
                                );
                            }
                        }
                    }
                    lo = mid + 1;
                },
                crate::cbor::keys::KeyOrder::Greater => {
                    proof {
                        assert forall|k: int| mid <= k < self.functions@.len() implies spec_bytes_lt(
                            key@, crate::cbor::value::spec_utf8((#[trigger] self.functions@[k]).0@)) by {
                            if k > mid {
                                crate::cbor::keys::lemma_lex_transitive(
                                    key@,
                                    crate::cbor::value::spec_utf8(self.functions@[mid as int].0@),
                                    crate::cbor::value::spec_utf8(self.functions@[k].0@),
                                );
                            }
                        }
                    }
                    hi = mid;
                },
                crate::cbor::keys::KeyOrder::Equal => {
                    proof {
                        vstd::utf8::encode_utf8_decode_utf8(self.functions@[mid as int].0@);
                        vstd::utf8::encode_utf8_decode_utf8(name@);
                        assert(self.spec_functions()[mid as int].0@ == name@);
                    }
                    return Some(&self.functions[mid].1);
                },
            }
        }
        proof {
            assert forall|i: int| 0 <= i < self.functions@.len() implies (#[trigger] self.functions@[i]).0@ != name@ by {
                let b = crate::cbor::value::spec_utf8(self.functions@[i].0@);
                if self.functions@[i].0@ == name@ {
                    crate::cbor::keys::lemma_lex_irreflexive(b);
                }
            }
        }
        None
    }
}

/// The closed MCP transport identities used by the executable format.
#[derive(Clone, Copy, Debug, PartialEq, Eq, Structural)]
pub enum McpTransport {
    /// Child-process standard input/output streams.
    Stdio,
    /// MCP streamable HTTP transport.
    StreamableHttp,
}

/// The exact canonical spelling of a transport.
pub open spec fn spec_transport_name(t: McpTransport) -> Seq<char> {
    match t {
        McpTransport::Stdio => "stdio"@,
        McpTransport::StreamableHttp => "streamable_http"@,
    }
}

impl McpTransport {
    /// Exact canonical spelling.
    pub fn as_str(self) -> (res: &'static str)
        ensures
            res@ == spec_transport_name(self),
    {
        match self {
            McpTransport::Stdio => "stdio",
            McpTransport::StreamableHttp => "streamable_http",
        }
    }

    /// Reads an exact canonical spelling.
    pub fn parse(text: &str) -> (res: Result<McpTransport, MetadataError>)
        ensures
            res matches Ok(t) ==> spec_transport_name(t) == text@,
            res is Err ==> res == Err::<McpTransport, MetadataError>(MetadataError::UnsupportedTransport)
                && forall|t: McpTransport| spec_transport_name(t) != text@,
            forall|t: McpTransport| spec_transport_name(t) == text@ ==> res == Ok::<McpTransport, MetadataError>(t),
    {
        proof { lemma_transport_names_distinct(); }
        if same_text(text, "stdio") {
            Ok(McpTransport::Stdio)
        } else if same_text(text, "streamable_http") {
            Ok(McpTransport::StreamableHttp)
        } else {
            Err(MetadataError::UnsupportedTransport)
        }
    }
}

/// The two transports have distinct spellings.
pub proof fn lemma_transport_names_distinct()
    ensures
        spec_transport_name(McpTransport::Stdio) != spec_transport_name(McpTransport::StreamableHttp),
{
    reveal_strlit("stdio");
    reveal_strlit("streamable_http");
    assert(spec_transport_name(McpTransport::Stdio).len() != spec_transport_name(McpTransport::StreamableHttp).len());
}

/// Compound server selection metadata. Endpoints, credentials, observations,
/// aliases, and connection handles are deliberately not fields of this record.
#[derive(Clone, Debug, PartialEq)]
pub struct ServerIdentity {
    deployment_id: String,
    transport: McpTransport,
    implementation_name: String,
    implementation_version: String,
}

impl ServerIdentity {
    /// The host deployment ID.
    pub closed spec fn spec_deployment_id(&self) -> Seq<char> {
        self.deployment_id@
    }

    /// The transport kind.
    pub closed spec fn spec_transport(&self) -> McpTransport {
        self.transport
    }

    /// The implementation name.
    pub closed spec fn spec_implementation_name(&self) -> Seq<char> {
        self.implementation_name@
    }

    /// The implementation version.
    pub closed spec fn spec_implementation_version(&self) -> Seq<char> {
        self.implementation_version@
    }

    /// Exact host deployment ID.
    pub fn deployment_id(&self) -> (res: &str)
        ensures
            res@ == self.spec_deployment_id(),
    {
        self.deployment_id.as_str()
    }

    /// Selected transport kind.
    pub fn transport(&self) -> (res: McpTransport)
        ensures
            res == self.spec_transport(),
    {
        self.transport
    }

    /// Exact server implementation name.
    pub fn implementation_name(&self) -> (res: &str)
        ensures
            res@ == self.spec_implementation_name(),
    {
        self.implementation_name.as_str()
    }

    /// Exact server implementation version.
    pub fn implementation_version(&self) -> (res: &str)
        ensures
            res@ == self.spec_implementation_version(),
    {
        self.implementation_version.as_str()
    }
}

/// The selected MCP descriptor kind and its kind-specific executable fields.
#[derive(Debug, PartialEq)]
pub enum McpBindingKind {
    /// Callable tool with exact input/output schema document digests.
    Tool {
        /// Exact tool name.
        name: String,
        /// Input schema root digest.
        input_schema: Digest,
        /// Output schema root digest.
        output_schema: Digest,
    },
    /// A fixed resource selection.
    Resource {
        /// Exact resource URI.
        uri: String,
    },
    /// A parameterized resource selection.
    Template {
        /// Exact URI-template text.
        uri_template: String,
    },
    /// A server-side prompt selection, distinct from a local prompt template.
    Prompt {
        /// Exact prompt name.
        name: String,
    },
}

/// A pinned MCP descriptor selection.
#[derive(Debug, PartialEq)]
pub struct McpBinding {
    server: ServerIdentity,
    descriptor: Digest,
    kind: McpBindingKind,
}

impl McpBinding {
    /// The server identity.
    pub closed spec fn spec_server(&self) -> ServerIdentity {
        self.server
    }

    /// The descriptor digest.
    pub closed spec fn spec_descriptor(&self) -> Digest {
        self.descriptor
    }

    /// The kind-specific fields.
    pub closed spec fn spec_kind(&self) -> McpBindingKind {
        self.kind
    }

    /// Compound server identity.
    pub fn server(&self) -> (res: &ServerIdentity)
        ensures
            *res == self.spec_server(),
    {
        &self.server
    }

    /// Exact descriptor document digest.
    pub fn descriptor(&self) -> (res: Digest)
        ensures
            res == self.spec_descriptor(),
    {
        self.descriptor
    }

    /// Borrowed kind-specific selection fields.
    pub fn kind(&self) -> (res: &McpBindingKind)
        ensures
            *res == self.spec_kind(),
    {
        &self.kind
    }
}

} // verus!

verus! {

/// Canonical metadata shape, version, or conversion failure. Errors contain
/// static schema terms, not submitted strings or credentials.
#[derive(Debug)]
#[non_exhaustive]
pub enum MetadataError {
    /// Underlying codec failure, retaining unsorted offsets.
    Codec(crate::cbor::error::Error),
    /// Invalid canonical identifier.
    Identifier(crate::identifier::ParseIdentifierError),
    /// Invalid digest representation.
    Digest(crate::digest::ParseDigestError),
    /// Invalid signature type/port record.
    Type(crate::types::model::TypeError),
    /// Incorrect shape or native field type at a fixed schema site.
    InvalidShape(&'static str),
    /// Required metadata field absent.
    MissingField(&'static str),
    /// Unknown field in the named record.
    UnknownField(&'static str),
    /// Unsupported HTLK core version.
    UnsupportedCoreVersion,
    /// Unsupported pinned MCP protocol version.
    UnsupportedMcpVersion,
    /// Unsupported transport spelling.
    UnsupportedTransport,
    /// Unknown MCP binding kind.
    UnknownBindingKind,
    /// Repeated generic-variable declaration.
    DuplicateTypeParameter,
    /// Signature references a generic variable outside its declarations.
    UndeclaredTypeVariable,
    /// Metadata conversion exceeds a codec ceiling.
    LimitExceeded {
        /// Exhausted resource.
        limit: crate::cbor::error::LimitKind,
        /// Configured ceiling.
        maximum: usize,
    },
    /// Fallible storage reservation failed.
    AllocationFailed,
}

/// The metadata error for an exhausted conversion ceiling.
pub open spec fn spec_meta_limit(e: crate::record_accounting::EncodingLimitError) -> MetadataError {
    MetadataError::LimitExceeded { limit: e.limit, maximum: e.maximum }
}

/// Charging one text of `t` at `depth`.
pub open spec fn spec_text_charge(t: Seq<char>, depth: int) -> crate::record_accounting::Charge {
    crate::record_accounting::Charge::Text { len: spec_utf8(t).len() as usize, depth: depth as usize }
}

/// Charging a field name and its text value, both at depth one.
pub open spec fn spec_pair_charges(key: Seq<char>, value: Seq<char>) -> Seq<crate::record_accounting::Charge> {
    seq![spec_text_charge(key, 1), spec_text_charge(value, 1)]
}

/// The outcome of a charge sequence, as a metadata result.
pub open spec fn spec_meta_charges(
    l: crate::cbor::limits::Limits,
    c: crate::record_accounting::Counters,
    s: Seq<crate::record_accounting::Charge>,
) -> Result<crate::record_accounting::Counters, MetadataError> {
    match crate::record_accounting::spec_charges(l, c, s) {
        Ok(d) => Ok(d),
        Err(e) => Err(spec_meta_limit(e)),
    }
}

fn charge_text(acc: &mut crate::record_accounting::RecordAccounting, text: &str, depth: usize) -> (res: Result<(), MetadataError>)
    ensures
        final(acc).limits == old(acc).limits,
        match spec_meta_charges(*old(acc).limits, old(acc).counters(), seq![spec_text_charge(text@, depth as int)]) {
            Ok(c) => res is Ok && final(acc).counters() == c,
            Err(e) => res == Err::<(), MetadataError>(e),
        },
{
    let ch = crate::record_accounting::Charge::Text { len: text.as_bytes().len(), depth };
    proof {
        crate::record_accounting::lemma_charges_single(*acc.limits, acc.counters(), spec_text_charge(text@, depth as int));
    }
    match acc.apply(ch) {
        Ok(()) => Ok(()),
        Err(e) => Err(MetadataError::LimitExceeded { limit: e.limit, maximum: e.maximum }),
    }
}

fn charge_pair(acc: &mut crate::record_accounting::RecordAccounting, key: &str, value: &str) -> (res: Result<(), MetadataError>)
    ensures
        final(acc).limits == old(acc).limits,
        match spec_meta_charges(*old(acc).limits, old(acc).counters(), spec_pair_charges(key@, value@)) {
            Ok(c) => res is Ok && final(acc).counters() == c,
            Err(e) => res == Err::<(), MetadataError>(e),
        },
{
    let ghost l = *acc.limits;
    proof {
        crate::record_accounting::lemma_charges_append(l, acc.counters(), seq![spec_text_charge(key@, 1)], seq![spec_text_charge(value@, 1)]);
        assert(spec_pair_charges(key@, value@) =~= seq![spec_text_charge(key@, 1)] + seq![spec_text_charge(value@, 1)]);
    }
    charge_text(acc, key, 1)?;
    charge_text(acc, value, 1)
}

/// Sequential charging: the outcome of `s + t` continues from that of `s`.
proof fn lemma_meta_append(
    l: crate::cbor::limits::Limits,
    c: crate::record_accounting::Counters,
    s: Seq<crate::record_accounting::Charge>,
    t: Seq<crate::record_accounting::Charge>,
)
    ensures
        spec_meta_charges(l, c, s + t) == match spec_meta_charges(l, c, s) {
            Ok(d) => spec_meta_charges(l, d, t),
            Err(e) => Err(e),
        },
{
    crate::record_accounting::lemma_charges_append(l, c, s, t);
}

/// `v` is the text `t`.
pub open spec fn spec_text_is(v: Value, t: Seq<char>) -> bool {
    match v {
        Value::Text(s) => s@ == t,
        _ => false,
    }
}

/// An entry with key `k` and text value `t`.
pub open spec fn spec_text_entry(e: (String, Value), k: Seq<char>, t: Seq<char>) -> bool {
    e.0@ == k && spec_text_is(e.1, t)
}

/// The canonical engine record: exactly its four fields, in canonical key order.
pub open spec fn spec_engine_record(v: Value, name: Seq<char>, version: Seq<char>, data_version: Seq<char>, digest: Seq<u8>) -> bool {
    match v {
        Value::Object(m) => {
            &&& m.entries@.len() == 4
            &&& spec_text_entry(m.entries@[0], "name"@, name)
            &&& spec_text_entry(m.entries@[1], "version"@, version)
            &&& spec_text_entry(m.entries@[2], "data_version"@, data_version)
            &&& spec_text_entry(m.entries@[3], "implementation_digest"@, crate::digest::spec_digest_text(digest))
        },
        _ => false,
    }
}

/// Everything an engine record charges: its header and four name/text pairs.
pub open spec fn spec_engine_charges(name: Seq<char>, version: Seq<char>, data_version: Seq<char>, digest: Seq<u8>) -> Seq<crate::record_accounting::Charge> {
    seq![crate::record_accounting::Charge::Collection { len: 4, depth: 0 }]
        + spec_pair_charges("name"@, name)
        + spec_pair_charges("version"@, version)
        + spec_pair_charges("data_version"@, data_version)
        + spec_pair_charges("implementation_digest"@, crate::digest::spec_digest_text(digest))
}

fn text_entry(key: &str, value: &str) -> (res: (String, Value))
    ensures
        spec_text_entry(res, key@, value@),
{
    (String::from_str(key), Value::Text(String::from_str(value)))
}

impl EngineIdentity {
    /// Produces the canonical engine record, bounding every value first.
    pub fn to_value(&self, limits: &crate::cbor::limits::Limits) -> (res: Result<Value, MetadataError>)
        ensures
            !limits.spec_valid() ==> res matches Err(MetadataError::Codec(_)),
            limits.spec_valid() ==> match spec_meta_charges(*limits, (0, 0, 0), spec_engine_charges(self.spec_name(),
                self.spec_version(), self.spec_data_version(), self.spec_implementation_digest()@)) {
                Ok(_) => res matches Ok(v) && spec_engine_record(v, self.spec_name(), self.spec_version(),
                    self.spec_data_version(), self.spec_implementation_digest()@),
                Err(e) => res == Err::<Value, MetadataError>(e),
            },
    {
        let mut acc = match crate::record_accounting::RecordAccounting::new(limits) {
            Ok(a) => a,
            Err(e) => return Err(MetadataError::Codec(e)),
        };
        let ghost l = *limits;
        let digest = self.implementation_digest.to_text();
        let head = crate::record_accounting::Charge::Collection { len: 4, depth: 0 };
        let ghost p1 = spec_pair_charges("name"@, self.name@);
        let ghost p2 = spec_pair_charges("version"@, self.version@);
        let ghost p3 = spec_pair_charges("data_version"@, self.data_version@);
        let ghost p4 = spec_pair_charges("implementation_digest"@, digest@);
        proof {
            assert(spec_engine_charges(self.name@, self.version@, self.data_version@, self.implementation_digest@)
                =~= seq![head] + (p1 + (p2 + (p3 + p4))));
            lemma_meta_append(l, (0, 0, 0), seq![head], p1 + (p2 + (p3 + p4)));
            crate::record_accounting::lemma_charges_single(l, (0, 0, 0), head);
        }
        if let Err(e) = acc.apply(head) {
            return Err(MetadataError::LimitExceeded { limit: e.limit, maximum: e.maximum });
        }
        proof { lemma_meta_append(l, acc.counters(), p1, p2 + (p3 + p4)); }
        charge_pair(&mut acc, "name", self.name.as_str())?;
        proof { lemma_meta_append(l, acc.counters(), p2, p3 + p4); }
        charge_pair(&mut acc, "version", self.version.as_str())?;
        proof { lemma_meta_append(l, acc.counters(), p3, p4); }
        charge_pair(&mut acc, "data_version", self.data_version.as_str())?;
        charge_pair(&mut acc, "implementation_digest", digest.as_str())?;
        let mut entries: Vec<(String, Value)> = Vec::new();
        entries.push(text_entry("name", self.name.as_str()));
        entries.push(text_entry("version", self.version.as_str()));
        entries.push(text_entry("data_version", self.data_version.as_str()));
        entries.push(text_entry("implementation_digest", digest.as_str()));
        Ok(Value::Object(ValueMap { entries }))
    }
}

} // verus!

verus! {

/// `k` is one of the field names.
pub open spec fn spec_known_field(fields: Seq<&'static str>, k: Seq<char>) -> bool {
    exists|i: int| 0 <= i < fields.len() && (#[trigger] fields[i])@ == k
}

/// The first field name, from position `i`, that no entry carries.
pub open spec fn spec_first_missing(entries: Seq<(String, Value)>, fields: Seq<&'static str>, i: int) -> Option<&'static str>
    decreases fields.len() - i,
{
    if i < 0 || i >= fields.len() {
        None
    } else if crate::cbor::map::spec_find(entries, fields[i]@) is None {
        Some(fields[i])
    } else {
        spec_first_missing(entries, fields, i + 1)
    }
}

/// A closed record: a map whose keys are all among `fields` and which
/// carries every one of them, checked in that order.
pub open spec fn spec_closed(v: Value, name: &'static str, fields: Seq<&'static str>) -> Result<Seq<(String, Value)>, MetadataError> {
    match v {
        Value::Object(m) => if exists|j: int| 0 <= j < m.entries@.len() && !spec_known_field(fields, (#[trigger] m.entries@[j]).0@) {
            Err(MetadataError::UnknownField(name))
        } else {
            match spec_first_missing(m.entries@, fields, 0) {
                Some(f) => Err(MetadataError::MissingField(f)),
                None => Ok(m.entries@),
            }
        },
        _ => Err(MetadataError::InvalidShape(name)),
    }
}

/// Reading the text field `key` of a record's entries.
pub open spec fn spec_text_field(entries: Seq<(String, Value)>, key: &'static str) -> Result<Seq<char>, MetadataError> {
    match crate::cbor::map::spec_find(entries, key@) {
        Some(Value::Text(t)) => Ok(t@),
        _ => Err(MetadataError::InvalidShape(key)),
    }
}

/// Reading the digest field `key` of a record's entries.
pub open spec fn spec_digest_field(entries: Seq<(String, Value)>, key: &'static str) -> Result<Seq<u8>, MetadataError> {
    match crate::cbor::map::spec_find(entries, key@) {
        Some(Value::Text(t)) => match crate::digest::spec_parse_digest(spec_utf8(t@)) {
            Ok(b) => Ok(b),
            Err(e) => Err(MetadataError::Digest(e)),
        },
        _ => Err(MetadataError::InvalidShape(key)),
    }
}

fn known_field(fields: &[&'static str], key: &str) -> (res: bool)
    ensures
        res <==> spec_known_field(fields@, key@),
{
    let mut i: usize = 0;
    while i < fields.len()
        invariant
            i <= fields@.len(),
            forall|k: int| 0 <= k < i ==> (#[trigger] fields@[k])@ != key@,
        decreases fields@.len() - i,
    {
        if same_text(fields[i], key) {
            return true;
        }
        i = i + 1;
    }
    false
}

pub(crate) fn closed<'a>(v: &'a Value, name: &'static str, fields: &[&'static str]) -> (res: Result<&'a ValueMap, MetadataError>)
    ensures
        match spec_closed(*v, name, fields@) {
            Ok(e) => res matches Ok(m) && m.entries@ == e && *v == Value::Object(*m),
            Err(x) => res == Err::<&ValueMap, MetadataError>(x),
        },
{
    let m = match v {
        Value::Object(m) => m,
        _ => return Err(MetadataError::InvalidShape(name)),
    };
    let mut j: usize = 0;
    while j < m.entries.len()
        invariant
            j <= m.entries@.len(),
            *v == Value::Object(*m),
            forall|jj: int| 0 <= jj < j ==> spec_known_field(fields@, (#[trigger] m.entries@[jj]).0@),
        decreases m.entries@.len() - j,
    {
        if !known_field(fields, m.entries[j].0.as_str()) {
            assert(!spec_known_field(fields@, m.entries@[j as int].0@));
            return Err(MetadataError::UnknownField(name));
        }
        j = j + 1;
    }
    let mut i: usize = 0;
    while i < fields.len()
        invariant
            i <= fields@.len(),
            *v == Value::Object(*m),
            forall|jj: int| 0 <= jj < m.entries@.len() ==> spec_known_field(fields@, (#[trigger] m.entries@[jj]).0@),
            spec_first_missing(m.entries@, fields@, 0) == spec_first_missing(m.entries@, fields@, i as int),
        decreases fields@.len() - i,
    {
        if m.get(fields[i]).is_none() {
            return Err(MetadataError::MissingField(fields[i]));
        }
        i = i + 1;
    }
    Ok(m)
}

fn text_field(m: &ValueMap, key: &'static str) -> (res: Result<String, MetadataError>)
    ensures
        match spec_text_field(m.entries@, key) {
            Ok(t) => res matches Ok(s) && s@ == t,
            Err(e) => res == Err::<String, MetadataError>(e),
        },
{
    match m.get(key) {
        Some(Value::Text(t)) => Ok(t.clone()),
        _ => Err(MetadataError::InvalidShape(key)),
    }
}

fn digest_field(m: &ValueMap, key: &'static str) -> (res: Result<crate::digest::Digest, MetadataError>)
    ensures
        match spec_digest_field(m.entries@, key) {
            Ok(b) => res matches Ok(d) && d@ == b,
            Err(e) => res == Err::<crate::digest::Digest, MetadataError>(e),
        },
{
    match m.get(key) {
        Some(Value::Text(t)) => match crate::digest::Digest::parse(t.as_str()) {
            Ok(d) => Ok(d),
            Err(e) => Err(MetadataError::Digest(e)),
        },
        _ => Err(MetadataError::InvalidShape(key)),
    }
}

/// The engine record's field names, in UTF-8 order.
pub open spec fn spec_engine_fields() -> Seq<&'static str> {
    seq!["data_version", "implementation_digest", "name", "version"]
}

/// Reading an engine record: a closed map of three texts and a digest.
pub open spec fn spec_parse_engine(v: Value) -> Result<(Seq<char>, Seq<char>, Seq<char>, Seq<u8>), MetadataError> {
    match spec_closed(v, "engine", spec_engine_fields()) {
        Err(e) => Err(e),
        Ok(e) => match spec_text_field(e, "name") {
            Err(x) => Err(x),
            Ok(name) => match spec_text_field(e, "version") {
                Err(x) => Err(x),
                Ok(version) => match spec_text_field(e, "data_version") {
                    Err(x) => Err(x),
                    Ok(data_version) => match spec_digest_field(e, "implementation_digest") {
                        Err(x) => Err(x),
                        Ok(d) => Ok((name, version, data_version, d)),
                    },
                },
            },
        },
    }
}

impl EngineIdentity {
    /// Reads an engine record without coercion or defaults.
    pub fn parse(v: &Value) -> (res: Result<EngineIdentity, MetadataError>)
        ensures
            match spec_parse_engine(*v) {
                Ok((n, ver, dv, d)) => res matches Ok(r) && r.spec_name() == n && r.spec_version() == ver
                    && r.spec_data_version() == dv && r.spec_implementation_digest()@ == d,
                Err(e) => res == Err::<EngineIdentity, MetadataError>(e),
            },
    {
        let fields: [&'static str; 4] = ["data_version", "implementation_digest", "name", "version"];
        assert(fields@ == spec_engine_fields());
        let m = closed(v, "engine", &fields)?;
        let name = text_field(m, "name")?;
        let version = text_field(m, "version")?;
        let data_version = text_field(m, "data_version")?;
        let implementation_digest = digest_field(m, "implementation_digest")?;
        Ok(EngineIdentity { name, version, data_version, implementation_digest })
    }
}

} // verus!

verus! {

proof fn lemma_engine_keys()
    ensures
        "name"@ != "version"@,
        "name"@ != "data_version"@,
        "name"@ != "implementation_digest"@,
        "version"@ != "data_version"@,
        "version"@ != "implementation_digest"@,
        "data_version"@ != "implementation_digest"@,
{
    reveal_strlit("name");
    reveal_strlit("version");
    reveal_strlit("data_version");
    reveal_strlit("implementation_digest");
    assert("name"@.len() == 4);
    assert("version"@.len() == 7);
    assert("data_version"@.len() == 12);
    assert("implementation_digest"@.len() == 21);
}

/// Reading back the record of an engine identity gives the same identity.
pub proof fn lemma_engine_roundtrip(v: Value, name: Seq<char>, version: Seq<char>, data_version: Seq<char>, digest: Seq<u8>)
    requires
        digest.len() == 32,
        spec_engine_record(v, name, version, data_version, digest),
    ensures
        spec_parse_engine(v) == Ok::<(Seq<char>, Seq<char>, Seq<char>, Seq<u8>), MetadataError>((name, version, data_version, digest)),
{
    let e = v->Object_0.entries@;
    lemma_engine_keys();
    assert(crate::cbor::map::spec_views_distinct(e));
    crate::cbor::map::lemma_find(e, "name"@, 0);
    crate::cbor::map::lemma_find(e, "version"@, 1);
    crate::cbor::map::lemma_find(e, "data_version"@, 2);
    crate::cbor::map::lemma_find(e, "implementation_digest"@, 3);
    let f = spec_engine_fields();
    assert forall|j: int| 0 <= j < e.len() implies spec_known_field(f, (#[trigger] e[j]).0@) by {
        if j == 0 { assert(f[2]@ == e[j].0@); }
        if j == 1 { assert(f[3]@ == e[j].0@); }
        if j == 2 { assert(f[0]@ == e[j].0@); }
        if j == 3 { assert(f[1]@ == e[j].0@); }
    }
    assert(spec_first_missing(e, f, 4) is None);
    assert(spec_first_missing(e, f, 3) is None);
    assert(spec_first_missing(e, f, 2) is None);
    assert(spec_first_missing(e, f, 1) is None);
    assert(spec_first_missing(e, f, 0) is None);
    crate::digest::lemma_digest_text_roundtrip(digest);
}

impl EngineIdentity {
    /// Preserves exact engine strings and verifies codec bounds.
    pub fn new(name: String, version: String, data_version: String, implementation_digest: crate::digest::Digest,
        limits: &crate::cbor::limits::Limits) -> (res: Result<EngineIdentity, MetadataError>)
        ensures
            !limits.spec_valid() ==> res matches Err(MetadataError::Codec(_)),
            limits.spec_valid() ==> match spec_meta_charges(*limits, (0, 0, 0), spec_engine_charges(name@, version@,
                data_version@, implementation_digest@)) {
                Ok(_) => res matches Ok(r) && r.spec_name() == name@ && r.spec_version() == version@
                    && r.spec_data_version() == data_version@ && r.spec_implementation_digest() == implementation_digest,
                Err(e) => res == Err::<EngineIdentity, MetadataError>(e),
            },
    {
        let result = EngineIdentity { name, version, data_version, implementation_digest };
        result.to_value(limits)?;
        Ok(result)
    }

    /// Bounds an already decoded record under the codec limits, then reads it.
    pub fn from_value(v: &Value, limits: &crate::cbor::limits::Limits) -> (res: Result<EngineIdentity, MetadataError>)
        ensures
            !(limits.spec_valid() && crate::cbor::encode::spec_fits(*v, *limits)) ==> res matches Err(MetadataError::Codec(_)),
            limits.spec_valid() && crate::cbor::encode::spec_fits(*v, *limits) ==> match spec_parse_engine(*v) {
                Ok((n, ver, dv, d)) => res matches Ok(r) && r.spec_name() == n && r.spec_version() == ver
                    && r.spec_data_version() == dv && r.spec_implementation_digest()@ == d,
                Err(e) => res == Err::<EngineIdentity, MetadataError>(e),
            },
    {
        if let Err(e) = crate::cbor::encode::encode(v, limits) {
            return Err(MetadataError::Codec(e));
        }
        EngineIdentity::parse(v)
    }

    /// Encodes exactly one canonical engine record.
    pub fn encode(&self, limits: &crate::cbor::limits::Limits) -> (res: Result<Vec<u8>, MetadataError>)
        ensures
            !limits.spec_valid() ==> res matches Err(MetadataError::Codec(_)),
            res matches Ok(b) ==> exists|v: Value| spec_engine_record(v, self.spec_name(), self.spec_version(),
                self.spec_data_version(), self.spec_implementation_digest()@) && b@ == crate::cbor::value::spec_encode(v),
            limits.spec_valid() ==> match spec_meta_charges(*limits, (0, 0, 0), spec_engine_charges(self.spec_name(),
                self.spec_version(), self.spec_data_version(), self.spec_implementation_digest()@)) {
                Ok(_) => exists|v: crate::cbor::value::Value| (crate::cbor::encode::spec_fits(v, *limits) <==> res is Ok) && (res matches Ok(b) ==> b@ == crate::cbor::value::spec_encode(v)) && spec_engine_record(v, self.spec_name(), self.spec_version(),
                    self.spec_data_version(), self.spec_implementation_digest()@),
                Err(e) => res == Err::<Vec<u8>, MetadataError>(e),
            },
    {
        let v = self.to_value(limits)?;
        match crate::cbor::encode::encode(&v, limits) {
            Ok(b) => Ok(b),
            Err(e) => Err(MetadataError::Codec(e)),
        }
    }

    /// Decodes exactly one canonical engine record, rejecting trailing data.
    pub fn decode(bytes: &[u8], limits: &crate::cbor::limits::Limits) -> (res: Result<EngineIdentity, MetadataError>)
        ensures
            !limits.spec_valid() ==> res matches Err(MetadataError::Codec(_)),
            res matches Ok(r) ==> exists|w: Value| #[trigger] crate::cbor::value::spec_encode(w) == bytes@
                && spec_parse_engine(w) == Ok::<(Seq<char>, Seq<char>, Seq<char>, Seq<u8>), MetadataError>(
                    (r.spec_name(), r.spec_version(), r.spec_data_version(), r.spec_implementation_digest()@)),
            limits.spec_valid() && (exists|x: crate::cbor::value::Value| #[trigger] crate::cbor::value::spec_encode(x) == bytes@
                && crate::cbor::value::spec_wf(x) && crate::cbor::value::spec_height(x) <= limits.max_depth
                && bytes@.len() <= limits.max_document_bytes) ==> exists|w: crate::cbor::value::Value|
                #[trigger] crate::cbor::value::spec_encode(w) == bytes@ && crate::cbor::value::spec_wf(w) && (match spec_parse_engine(w) {
                Ok((n, ver, dv, d)) => res matches Ok(r) && r.spec_name() == n && r.spec_version() == ver
                    && r.spec_data_version() == dv && r.spec_implementation_digest()@ == d,
                Err(e) => res == Err::<EngineIdentity, MetadataError>(e),
            }),
    {
        let v = match crate::cbor::decode::decode(bytes, limits) {
            Ok(v) => v,
            Err(e) => return Err(MetadataError::Codec(e)),
        };
        proof { assert(crate::cbor::value::spec_encode(v) == bytes@ && crate::cbor::value::spec_wf(v)); }
        let r = EngineIdentity::parse(&v)?;
        assert(crate::cbor::value::spec_encode(v) == bytes@);
        Ok(r)
    }
}

} // verus!

verus! {

/// The canonical server-identity record: exactly its four fields, in canonical key order.
pub open spec fn spec_server_record(v: Value, deployment_id: Seq<char>, transport: McpTransport,
    implementation_name: Seq<char>, implementation_version: Seq<char>) -> bool {
    match v {
        Value::Object(m) => {
            &&& m.entries@.len() == 4
            &&& spec_text_entry(m.entries@[0], "transport"@, spec_transport_name(transport))
            &&& spec_text_entry(m.entries@[1], "deployment_id"@, deployment_id)
            &&& spec_text_entry(m.entries@[2], "implementation_name"@, implementation_name)
            &&& spec_text_entry(m.entries@[3], "implementation_version"@, implementation_version)
        },
        _ => false,
    }
}

/// Everything a server-identity record charges, in field order.
pub open spec fn spec_server_charges(deployment_id: Seq<char>, transport: McpTransport,
    implementation_name: Seq<char>, implementation_version: Seq<char>) -> Seq<crate::record_accounting::Charge> {
    seq![crate::record_accounting::Charge::Collection { len: 4, depth: 0 }]
        + spec_pair_charges("deployment_id"@, deployment_id)
        + spec_pair_charges("transport"@, spec_transport_name(transport))
        + spec_pair_charges("implementation_name"@, implementation_name)
        + spec_pair_charges("implementation_version"@, implementation_version)
}

/// The server-identity field names, in UTF-8 order.
pub open spec fn spec_server_fields() -> Seq<&'static str> {
    seq!["deployment_id", "implementation_name", "implementation_version", "transport"]
}

/// Reading a transport spelling.
pub open spec fn spec_transport_field(entries: Seq<(String, Value)>) -> Result<McpTransport, MetadataError> {
    match spec_text_field(entries, "transport") {
        Err(e) => Err(e),
        Ok(t) => if t == spec_transport_name(McpTransport::Stdio) {
            Ok(McpTransport::Stdio)
        } else if t == spec_transport_name(McpTransport::StreamableHttp) {
            Ok(McpTransport::StreamableHttp)
        } else {
            Err(MetadataError::UnsupportedTransport)
        },
    }
}

/// Reading a server-identity record: a closed map of texts and a known transport.
pub open spec fn spec_parse_server(v: Value) -> Result<(Seq<char>, McpTransport, Seq<char>, Seq<char>), MetadataError> {
    match spec_closed(v, "server identity", spec_server_fields()) {
        Err(e) => Err(e),
        Ok(e) => match spec_text_field(e, "deployment_id") {
            Err(x) => Err(x),
            Ok(d) => match spec_transport_field(e) {
                Err(x) => Err(x),
                Ok(t) => match spec_text_field(e, "implementation_name") {
                    Err(x) => Err(x),
                    Ok(n) => match spec_text_field(e, "implementation_version") {
                        Err(x) => Err(x),
                        Ok(ver) => Ok((d, t, n, ver)),
                    },
                },
            },
        },
    }
}

proof fn lemma_server_keys()
    ensures
        "transport"@ != "deployment_id"@,
        "transport"@ != "implementation_name"@,
        "transport"@ != "implementation_version"@,
        "deployment_id"@ != "implementation_name"@,
        "deployment_id"@ != "implementation_version"@,
        "implementation_name"@ != "implementation_version"@,
{
    reveal_strlit("transport");
    reveal_strlit("deployment_id");
    reveal_strlit("implementation_name");
    reveal_strlit("implementation_version");
    assert("transport"@.len() == 9);
    assert("deployment_id"@.len() == 13);
    assert("implementation_name"@.len() == 19);
    assert("implementation_version"@.len() == 22);
}

/// Reading back the record of a server identity gives the same identity.
pub proof fn lemma_server_roundtrip(v: Value, deployment_id: Seq<char>, transport: McpTransport,
    implementation_name: Seq<char>, implementation_version: Seq<char>)
    requires
        spec_server_record(v, deployment_id, transport, implementation_name, implementation_version),
    ensures
        spec_parse_server(v) == Ok::<(Seq<char>, McpTransport, Seq<char>, Seq<char>), MetadataError>(
            (deployment_id, transport, implementation_name, implementation_version)),
{
    let e = v->Object_0.entries@;
    lemma_server_keys();
    lemma_transport_names_distinct();
    assert(crate::cbor::map::spec_views_distinct(e));
    crate::cbor::map::lemma_find(e, "transport"@, 0);
    crate::cbor::map::lemma_find(e, "deployment_id"@, 1);
    crate::cbor::map::lemma_find(e, "implementation_name"@, 2);
    crate::cbor::map::lemma_find(e, "implementation_version"@, 3);
    let f = spec_server_fields();
    assert forall|j: int| 0 <= j < e.len() implies spec_known_field(f, (#[trigger] e[j]).0@) by {
        if j == 0 { assert(f[3]@ == e[j].0@); }
        if j == 1 { assert(f[0]@ == e[j].0@); }
        if j == 2 { assert(f[1]@ == e[j].0@); }
        if j == 3 { assert(f[2]@ == e[j].0@); }
    }
    assert(spec_first_missing(e, f, 4) is None);
    assert(spec_first_missing(e, f, 3) is None);
    assert(spec_first_missing(e, f, 2) is None);
    assert(spec_first_missing(e, f, 1) is None);
    assert(spec_first_missing(e, f, 0) is None);
}

impl ServerIdentity {
    /// Produces the canonical server-identity record, bounding every value first.
    pub fn to_value(&self, limits: &crate::cbor::limits::Limits) -> (res: Result<Value, MetadataError>)
        ensures
            !limits.spec_valid() ==> res matches Err(MetadataError::Codec(_)),
            limits.spec_valid() ==> match spec_meta_charges(*limits, (0, 0, 0), spec_server_charges(self.spec_deployment_id(),
                self.spec_transport(), self.spec_implementation_name(), self.spec_implementation_version())) {
                Ok(_) => res matches Ok(v) && spec_server_record(v, self.spec_deployment_id(), self.spec_transport(),
                    self.spec_implementation_name(), self.spec_implementation_version()),
                Err(e) => res == Err::<Value, MetadataError>(e),
            },
    {
        let mut acc = match crate::record_accounting::RecordAccounting::new(limits) {
            Ok(a) => a,
            Err(e) => return Err(MetadataError::Codec(e)),
        };
        let ghost l = *limits;
        let transport = self.transport.as_str();
        let head = crate::record_accounting::Charge::Collection { len: 4, depth: 0 };
        let ghost p1 = spec_pair_charges("deployment_id"@, self.deployment_id@);
        let ghost p2 = spec_pair_charges("transport"@, transport@);
        let ghost p3 = spec_pair_charges("implementation_name"@, self.implementation_name@);
        let ghost p4 = spec_pair_charges("implementation_version"@, self.implementation_version@);
        proof {
            assert(spec_server_charges(self.deployment_id@, self.transport, self.implementation_name@, self.implementation_version@)
                =~= seq![head] + (p1 + (p2 + (p3 + p4))));
            lemma_meta_append(l, (0, 0, 0), seq![head], p1 + (p2 + (p3 + p4)));
            crate::record_accounting::lemma_charges_single(l, (0, 0, 0), head);
        }
        if let Err(e) = acc.apply(head) {
            return Err(MetadataError::LimitExceeded { limit: e.limit, maximum: e.maximum });
        }
        proof { lemma_meta_append(l, acc.counters(), p1, p2 + (p3 + p4)); }
        charge_pair(&mut acc, "deployment_id", self.deployment_id.as_str())?;
        proof { lemma_meta_append(l, acc.counters(), p2, p3 + p4); }
        charge_pair(&mut acc, "transport", transport)?;
        proof { lemma_meta_append(l, acc.counters(), p3, p4); }
        charge_pair(&mut acc, "implementation_name", self.implementation_name.as_str())?;
        charge_pair(&mut acc, "implementation_version", self.implementation_version.as_str())?;
        let mut entries: Vec<(String, Value)> = Vec::new();
        entries.push(text_entry("transport", transport));
        entries.push(text_entry("deployment_id", self.deployment_id.as_str()));
        entries.push(text_entry("implementation_name", self.implementation_name.as_str()));
        entries.push(text_entry("implementation_version", self.implementation_version.as_str()));
        Ok(Value::Object(ValueMap { entries }))
    }

    /// Reads a server-identity record without coercion or defaults.
    pub fn parse(v: &Value) -> (res: Result<ServerIdentity, MetadataError>)
        ensures
            match spec_parse_server(*v) {
                Ok((d, t, n, ver)) => res matches Ok(r) && r.spec_deployment_id() == d && r.spec_transport() == t
                    && r.spec_implementation_name() == n && r.spec_implementation_version() == ver,
                Err(e) => res == Err::<ServerIdentity, MetadataError>(e),
            },
    {
        let fields: [&'static str; 4] = ["deployment_id", "implementation_name", "implementation_version", "transport"];
        assert(fields@ == spec_server_fields());
        let m = closed(v, "server identity", &fields)?;
        let deployment_id = text_field(m, "deployment_id")?;
        let transport = match m.get("transport") {
            Some(Value::Text(t)) => match McpTransport::parse(t.as_str()) {
                Ok(x) => x,
                Err(_) => return Err(MetadataError::UnsupportedTransport),
            },
            _ => return Err(MetadataError::InvalidShape("transport")),
        };
        proof {
            lemma_transport_names_distinct();
        }
        let implementation_name = text_field(m, "implementation_name")?;
        let implementation_version = text_field(m, "implementation_version")?;
        Ok(ServerIdentity { deployment_id, transport, implementation_name, implementation_version })
    }

    /// Preserves exact identity strings and checks canonical encoding bounds;
    /// no connection is opened or authenticated.
    pub fn new(deployment_id: String, transport: McpTransport, implementation_name: String, implementation_version: String,
        limits: &crate::cbor::limits::Limits) -> (res: Result<ServerIdentity, MetadataError>)
        ensures
            !limits.spec_valid() ==> res matches Err(MetadataError::Codec(_)),
            limits.spec_valid() ==> match spec_meta_charges(*limits, (0, 0, 0), spec_server_charges(deployment_id@,
                transport, implementation_name@, implementation_version@)) {
                Ok(_) => res matches Ok(r) && r.spec_deployment_id() == deployment_id@ && r.spec_transport() == transport
                    && r.spec_implementation_name() == implementation_name@
                    && r.spec_implementation_version() == implementation_version@,
                Err(e) => res == Err::<ServerIdentity, MetadataError>(e),
            },
    {
        let result = ServerIdentity { deployment_id, transport, implementation_name, implementation_version };
        result.to_value(limits)?;
        Ok(result)
    }

    /// Bounds an already decoded record under the codec limits, then reads it.
    pub fn from_value(v: &Value, limits: &crate::cbor::limits::Limits) -> (res: Result<ServerIdentity, MetadataError>)
        ensures
            !(limits.spec_valid() && crate::cbor::encode::spec_fits(*v, *limits)) ==> res matches Err(MetadataError::Codec(_)),
            limits.spec_valid() && crate::cbor::encode::spec_fits(*v, *limits) ==> match spec_parse_server(*v) {
                Ok((d, t, n, ver)) => res matches Ok(r) && r.spec_deployment_id() == d && r.spec_transport() == t
                    && r.spec_implementation_name() == n && r.spec_implementation_version() == ver,
                Err(e) => res == Err::<ServerIdentity, MetadataError>(e),
            },
    {
        if let Err(e) = crate::cbor::encode::encode(v, limits) {
            return Err(MetadataError::Codec(e));
        }
        ServerIdentity::parse(v)
    }

    /// Encodes exactly one canonical server-identity record.
    pub fn encode(&self, limits: &crate::cbor::limits::Limits) -> (res: Result<Vec<u8>, MetadataError>)
        ensures
            !limits.spec_valid() ==> res matches Err(MetadataError::Codec(_)),
            res matches Ok(b) ==> exists|v: Value| spec_server_record(v, self.spec_deployment_id(), self.spec_transport(),
                self.spec_implementation_name(), self.spec_implementation_version()) && b@ == crate::cbor::value::spec_encode(v),
            limits.spec_valid() ==> match spec_meta_charges(*limits, (0, 0, 0), spec_server_charges(self.spec_deployment_id(),
                self.spec_transport(), self.spec_implementation_name(), self.spec_implementation_version())) {
                Ok(_) => exists|v: crate::cbor::value::Value| (crate::cbor::encode::spec_fits(v, *limits) <==> res is Ok) && (res matches Ok(b) ==> b@ == crate::cbor::value::spec_encode(v)) && spec_server_record(v, self.spec_deployment_id(), self.spec_transport(),
                    self.spec_implementation_name(), self.spec_implementation_version()),
                Err(e) => res == Err::<Vec<u8>, MetadataError>(e),
            },
    {
        let v = self.to_value(limits)?;
        match crate::cbor::encode::encode(&v, limits) {
            Ok(b) => Ok(b),
            Err(e) => Err(MetadataError::Codec(e)),
        }
    }

    /// Decodes exactly one canonical server-identity record.
    pub fn decode(bytes: &[u8], limits: &crate::cbor::limits::Limits) -> (res: Result<ServerIdentity, MetadataError>)
        ensures
            !limits.spec_valid() ==> res matches Err(MetadataError::Codec(_)),
            res matches Ok(r) ==> exists|w: Value| #[trigger] crate::cbor::value::spec_encode(w) == bytes@
                && spec_parse_server(w) == Ok::<(Seq<char>, McpTransport, Seq<char>, Seq<char>), MetadataError>(
                    (r.spec_deployment_id(), r.spec_transport(), r.spec_implementation_name(), r.spec_implementation_version())),
            limits.spec_valid() && (exists|x: crate::cbor::value::Value| #[trigger] crate::cbor::value::spec_encode(x) == bytes@
                && crate::cbor::value::spec_wf(x) && crate::cbor::value::spec_height(x) <= limits.max_depth
                && bytes@.len() <= limits.max_document_bytes) ==> exists|w: crate::cbor::value::Value|
                #[trigger] crate::cbor::value::spec_encode(w) == bytes@ && crate::cbor::value::spec_wf(w) && (match spec_parse_server(w) {
                Ok((d, t, n, ver)) => res matches Ok(r) && r.spec_deployment_id() == d && r.spec_transport() == t
                    && r.spec_implementation_name() == n && r.spec_implementation_version() == ver,
                Err(e) => res == Err::<ServerIdentity, MetadataError>(e),
            }),
    {
        let v = match crate::cbor::decode::decode(bytes, limits) {
            Ok(v) => v,
            Err(e) => return Err(MetadataError::Codec(e)),
        };
        proof { assert(crate::cbor::value::spec_encode(v) == bytes@ && crate::cbor::value::spec_wf(v)); }
        let r = ServerIdentity::parse(&v)?;
        assert(crate::cbor::value::spec_encode(v) == bytes@);
        Ok(r)
    }

    /// Computes the `server` record digest of this identity: a content
    /// identity, not producer authentication.
    pub fn digest(&self, limits: &crate::cbor::limits::Limits) -> (res: Result<crate::digest::Digest, MetadataError>)
        ensures
            res matches Ok(d) ==> exists|v: Value| spec_server_record(v, self.spec_deployment_id(), self.spec_transport(),
                self.spec_implementation_name(), self.spec_implementation_version())
                && d@ == crate::digest::spec_sha256(crate::digest::spec_record_prefix(crate::digest::RecordKind::Server)
                    + crate::cbor::value::spec_encode(v)),
    {
        let v = self.to_value(limits)?;
        match crate::digest::record_digest(crate::digest::RecordKind::Server, &v, limits) {
            Ok(d) => Ok(d),
            Err(e) => Err(MetadataError::Codec(e)),
        }
    }
}

} // verus!

verus! {

/// The fields of an engine identity: name, version, data version, digest bytes.
pub type EngineFields = (Seq<char>, Seq<char>, Seq<char>, Seq<u8>);

/// The fields of an engine identity, as its record carries them.
pub open spec fn spec_engine_view(e: EngineIdentity) -> EngineFields {
    (e.spec_name(), e.spec_version(), e.spec_data_version(), e.spec_implementation_digest()@)
}

/// Charging a field name and its text value at `depth`.
pub open spec fn spec_pair_at(key: Seq<char>, value: Seq<char>, depth: int) -> Seq<crate::record_accounting::Charge> {
    seq![spec_text_charge(key, depth), spec_text_charge(value, depth)]
}

/// Everything an engine record charges when embedded as a field value.
pub open spec fn spec_engine_child_charges(f: EngineFields) -> Seq<crate::record_accounting::Charge> {
    seq![crate::record_accounting::Charge::Collection { len: 4, depth: 1 }]
        + spec_pair_at("name"@, f.0, 2)
        + spec_pair_at("version"@, f.1, 2)
        + spec_pair_at("data_version"@, f.2, 2)
        + spec_pair_at("implementation_digest"@, crate::digest::spec_digest_text(f.3), 2)
}

/// An engine record embedded as a field value charges its header and its
/// four name/text pairs one level down.
proof fn lemma_engine_child_charges(v: Value, f: EngineFields)
    requires
        spec_engine_record(v, f.0, f.1, f.2, f.3),
    ensures
        crate::record_accounting::spec_value_charges(v, 1) == spec_engine_child_charges(f),
{
    let e = v->Object_0.entries@;
    let e1 = e.drop_first();
    let e2 = e1.drop_first();
    let e3 = e2.drop_first();
    crate::record_accounting::lemma_entries_charges_front(e, 2);
    crate::record_accounting::lemma_entries_charges_front(e1, 2);
    crate::record_accounting::lemma_entries_charges_front(e2, 2);
    crate::record_accounting::lemma_entries_charges_front(e3, 2);
    assert(e3.drop_first() =~= Seq::<(String, Value)>::empty());
    assert(crate::record_accounting::spec_entries_charges(e3.drop_first(), 2) =~= Seq::empty());
    assert(crate::record_accounting::spec_entries_charges(e, 2) =~= spec_pair_at("name"@, f.0, 2)
        + spec_pair_at("version"@, f.1, 2) + spec_pair_at("data_version"@, f.2, 2)
        + spec_pair_at("implementation_digest"@, crate::digest::spec_digest_text(f.3), 2));
    assert(crate::record_accounting::spec_value_charges(v, 1) =~= spec_engine_child_charges(f));
}

/// Building an engine record on its own, then charging it as the field `key`
/// of an enclosing record whose counters stand at `c`.
pub open spec fn spec_child_step(
    l: crate::cbor::limits::Limits,
    c: crate::record_accounting::Counters,
    key: Seq<char>,
    f: EngineFields,
) -> Result<crate::record_accounting::Counters, MetadataError> {
    match spec_meta_charges(l, (0, 0, 0), spec_engine_charges(f.0, f.1, f.2, f.3)) {
        Err(e) => Err(e),
        Ok(_) => spec_meta_charges(l, c, seq![spec_text_charge(key, 1)] + spec_engine_child_charges(f)),
    }
}

/// Charges the field name `key` and the whole value `child` one level down.
fn charge_child(acc: &mut crate::record_accounting::RecordAccounting, key: &str, child: &Value) -> (res: Result<(), MetadataError>)
    requires
        old(acc).limits.spec_valid(),
    ensures
        final(acc).limits == old(acc).limits,
        match spec_meta_charges(*old(acc).limits, old(acc).counters(),
            seq![spec_text_charge(key@, 1)] + crate::record_accounting::spec_value_charges(*child, 1)) {
            Ok(c) => res is Ok && final(acc).counters() == c,
            Err(e) => res == Err::<(), MetadataError>(e),
        },
{
    let ghost l = *acc.limits;
    proof {
        lemma_meta_append(l, acc.counters(), seq![spec_text_charge(key@, 1)], crate::record_accounting::spec_value_charges(*child, 1));
    }
    charge_text(acc, key, 1)?;
    match acc.value(child, 1) {
        Ok(()) => Ok(()),
        Err(e) => Err(MetadataError::LimitExceeded { limit: e.limit, maximum: e.maximum }),
    }
}

/// The header and leading text fields of a profile record.
pub open spec fn spec_profile_head(core_digest: Seq<u8>) -> Seq<crate::record_accounting::Charge> {
    seq![crate::record_accounting::Charge::Collection { len: 7, depth: 0 }]
        + spec_pair_charges("core_version"@, CORE_VERSION@)
        + spec_pair_charges("core_digest"@, crate::digest::spec_digest_text(core_digest))
        + spec_pair_charges("mcp_protocol_version"@, MCP_PROTOCOL_VERSION@)
}

/// Building a profile record: its header and version fields, each engine
/// record on its own and then as a field, and the policy digest last.
pub open spec fn spec_profile_build(
    l: crate::cbor::limits::Limits,
    core_digest: Seq<u8>,
    regex: EngineFields,
    schema: EngineFields,
    uri: EngineFields,
    policy: Seq<u8>,
) -> Result<(), MetadataError> {
    match spec_meta_charges(l, (0, 0, 0), spec_profile_head(core_digest)) {
        Err(e) => Err(e),
        Ok(c1) => match spec_child_step(l, c1, "regex_engine"@, regex) {
            Err(e) => Err(e),
            Ok(c2) => match spec_child_step(l, c2, "schema_validator"@, schema) {
                Err(e) => Err(e),
                Ok(c3) => match spec_child_step(l, c3, "uri_template_engine"@, uri) {
                    Err(e) => Err(e),
                    Ok(c4) => match spec_meta_charges(l, c4, spec_pair_charges("policy_document"@,
                        crate::digest::spec_digest_text(policy))) {
                        Err(e) => Err(e),
                        Ok(_) => Ok(()),
                    },
                },
            },
        },
    }
}

/// An entry with key `k` holding the engine record of `f`.
pub open spec fn spec_engine_entry(e: (String, Value), k: Seq<char>, f: EngineFields) -> bool {
    e.0@ == k && spec_engine_record(e.1, f.0, f.1, f.2, f.3)
}

/// The canonical profile record: exactly its seven fields, in canonical key order.
pub open spec fn spec_profile_record(v: Value, core_digest: Seq<u8>, regex: EngineFields, schema: EngineFields,
    uri: EngineFields, policy: Seq<u8>) -> bool {
    match v {
        Value::Object(m) => {
            &&& m.entries@.len() == 7
            &&& spec_text_entry(m.entries@[0], "core_digest"@, crate::digest::spec_digest_text(core_digest))
            &&& spec_text_entry(m.entries@[1], "core_version"@, CORE_VERSION@)
            &&& spec_engine_entry(m.entries@[2], "regex_engine"@, regex)
            &&& spec_text_entry(m.entries@[3], "policy_document"@, crate::digest::spec_digest_text(policy))
            &&& spec_engine_entry(m.entries@[4], "schema_validator"@, schema)
            &&& spec_engine_entry(m.entries@[5], "uri_template_engine"@, uri)
            &&& spec_text_entry(m.entries@[6], "mcp_protocol_version"@, MCP_PROTOCOL_VERSION@)
        },
        _ => false,
    }
}

impl ExecutionProfile {
    /// Produces the canonical profile record, bounding every value first.
    pub fn to_value(&self, limits: &crate::cbor::limits::Limits) -> (res: Result<Value, MetadataError>)
        ensures
            !limits.spec_valid() ==> res matches Err(MetadataError::Codec(_)),
            limits.spec_valid() ==> match spec_profile_build(*limits, self.spec_core_digest()@,
                spec_engine_view(self.spec_regex_engine()), spec_engine_view(self.spec_schema_validator()),
                spec_engine_view(self.spec_uri_template_engine()), self.spec_policy_document()@) {
                Ok(()) => res matches Ok(v) && spec_profile_record(v, self.spec_core_digest()@,
                    spec_engine_view(self.spec_regex_engine()), spec_engine_view(self.spec_schema_validator()),
                    spec_engine_view(self.spec_uri_template_engine()), self.spec_policy_document()@),
                Err(e) => res == Err::<Value, MetadataError>(e),
            },
    {
        let mut acc = match crate::record_accounting::RecordAccounting::new(limits) {
            Ok(a) => a,
            Err(e) => return Err(MetadataError::Codec(e)),
        };
        let ghost l = *limits;
        let core_digest = self.core_digest.to_text();
        let head = crate::record_accounting::Charge::Collection { len: 7, depth: 0 };
        let ghost p1 = spec_pair_charges("core_version"@, CORE_VERSION@);
        let ghost p2 = spec_pair_charges("core_digest"@, core_digest@);
        let ghost p3 = spec_pair_charges("mcp_protocol_version"@, MCP_PROTOCOL_VERSION@);
        proof {
            assert(spec_profile_head(self.core_digest@) =~= seq![head] + (p1 + (p2 + p3)));
            lemma_meta_append(l, (0, 0, 0), seq![head], p1 + (p2 + p3));
            crate::record_accounting::lemma_charges_single(l, (0, 0, 0), head);
        }
        if let Err(e) = acc.apply(head) {
            return Err(MetadataError::LimitExceeded { limit: e.limit, maximum: e.maximum });
        }
        proof { lemma_meta_append(l, acc.counters(), p1, p2 + p3); }
        charge_pair(&mut acc, "core_version", CORE_VERSION)?;
        proof { lemma_meta_append(l, acc.counters(), p2, p3); }
        charge_pair(&mut acc, "core_digest", core_digest.as_str())?;
        charge_pair(&mut acc, "mcp_protocol_version", MCP_PROTOCOL_VERSION)?;
        let regex = self.regex_engine.to_value(limits)?;
        proof { lemma_engine_child_charges(regex, spec_engine_view(self.regex_engine)); }
        charge_child(&mut acc, "regex_engine", &regex)?;
        let schema = self.schema_validator.to_value(limits)?;
        proof { lemma_engine_child_charges(schema, spec_engine_view(self.schema_validator)); }
        charge_child(&mut acc, "schema_validator", &schema)?;
        let uri = self.uri_template_engine.to_value(limits)?;
        proof { lemma_engine_child_charges(uri, spec_engine_view(self.uri_template_engine)); }
        charge_child(&mut acc, "uri_template_engine", &uri)?;
        let policy = self.policy_document.to_text();
        charge_pair(&mut acc, "policy_document", policy.as_str())?;
        let mut entries: Vec<(String, Value)> = Vec::new();
        entries.push(text_entry("core_digest", core_digest.as_str()));
        entries.push(text_entry("core_version", CORE_VERSION));
        entries.push((String::from_str("regex_engine"), regex));
        entries.push(text_entry("policy_document", policy.as_str()));
        entries.push((String::from_str("schema_validator"), schema));
        entries.push((String::from_str("uri_template_engine"), uri));
        entries.push(text_entry("mcp_protocol_version", MCP_PROTOCOL_VERSION));
        Ok(Value::Object(ValueMap { entries }))
    }
}

} // verus!

verus! {

/// The fields of a profile: core digest, the three engines, policy digest.
pub type ProfileFields = (Seq<u8>, EngineFields, EngineFields, EngineFields, Seq<u8>);

/// The profile record's field names, in UTF-8 order.
pub open spec fn spec_profile_fields() -> Seq<&'static str> {
    seq!["core_digest", "core_version", "mcp_protocol_version", "policy_document", "regex_engine",
        "schema_validator", "uri_template_engine"]
}

/// Reading the engine record held by the field `key`.
pub open spec fn spec_engine_field(entries: Seq<(String, Value)>, key: &'static str) -> Result<EngineFields, MetadataError> {
    match crate::cbor::map::spec_find(entries, key@) {
        Some(x) => spec_parse_engine(x),
        None => Err(MetadataError::MissingField(key)),
    }
}

/// Reading a profile record: a closed map with the supported versions,
/// two digests and three engine records.
pub open spec fn spec_parse_profile(v: Value) -> Result<ProfileFields, MetadataError> {
    match spec_closed(v, "profile", spec_profile_fields()) {
        Err(e) => Err(e),
        Ok(e) => match spec_text_field(e, "core_version") {
            Err(x) => Err(x),
            Ok(cv) => if cv != CORE_VERSION@ {
                Err(MetadataError::UnsupportedCoreVersion)
            } else {
                match spec_text_field(e, "mcp_protocol_version") {
                    Err(x) => Err(x),
                    Ok(mv) => if mv != MCP_PROTOCOL_VERSION@ {
                        Err(MetadataError::UnsupportedMcpVersion)
                    } else {
                        match spec_digest_field(e, "core_digest") {
                            Err(x) => Err(x),
                            Ok(cd) => match spec_digest_field(e, "policy_document") {
                                Err(x) => Err(x),
                                Ok(pd) => match spec_engine_field(e, "regex_engine") {
                                    Err(x) => Err(x),
                                    Ok(r) => match spec_engine_field(e, "schema_validator") {
                                        Err(x) => Err(x),
                                        Ok(s) => match spec_engine_field(e, "uri_template_engine") {
                                            Err(x) => Err(x),
                                            Ok(u) => Ok((cd, r, s, u, pd)),
                                        },
                                    },
                                },
                            },
                        }
                    },
                }
            },
        },
    }
}

fn engine_field(m: &ValueMap, key: &'static str) -> (res: Result<EngineIdentity, MetadataError>)
    ensures
        match spec_engine_field(m.entries@, key) {
            Ok(f) => res matches Ok(r) && spec_engine_view(r) == f,
            Err(e) => res == Err::<EngineIdentity, MetadataError>(e),
        },
{
    match m.get(key) {
        Some(x) => EngineIdentity::parse(x),
        None => Err(MetadataError::MissingField(key)),
    }
}

impl ExecutionProfile {
    /// The fields of this profile, as its record carries them.
    pub open spec fn spec_fields(&self) -> ProfileFields {
        (self.spec_core_digest()@, spec_engine_view(self.spec_regex_engine()), spec_engine_view(self.spec_schema_validator()),
            spec_engine_view(self.spec_uri_template_engine()), self.spec_policy_document()@)
    }

    /// Reads a profile record, rejecting other core or protocol versions.
    pub fn parse(v: &Value) -> (res: Result<ExecutionProfile, MetadataError>)
        ensures
            match spec_parse_profile(*v) {
                Ok(f) => res matches Ok(r) && r.spec_fields() == f,
                Err(e) => res == Err::<ExecutionProfile, MetadataError>(e),
            },
    {
        let fields: [&'static str; 7] = ["core_digest", "core_version", "mcp_protocol_version", "policy_document",
            "regex_engine", "schema_validator", "uri_template_engine"];
        assert(fields@ == spec_profile_fields());
        let m = closed(v, "profile", &fields)?;
        let core_version = text_field(m, "core_version")?;
        if !same_text(core_version.as_str(), CORE_VERSION) {
            return Err(MetadataError::UnsupportedCoreVersion);
        }
        let mcp_version = text_field(m, "mcp_protocol_version")?;
        if !same_text(mcp_version.as_str(), MCP_PROTOCOL_VERSION) {
            return Err(MetadataError::UnsupportedMcpVersion);
        }
        let core_digest = digest_field(m, "core_digest")?;
        let policy_document = digest_field(m, "policy_document")?;
        let regex_engine = engine_field(m, "regex_engine")?;
        let schema_validator = engine_field(m, "schema_validator")?;
        let uri_template_engine = engine_field(m, "uri_template_engine")?;
        Ok(ExecutionProfile { core_digest, regex_engine, schema_validator, uri_template_engine, policy_document })
    }
}

} // verus!

verus! {

proof fn lemma_profile_keys()
    ensures
        "core_digest"@.len() == 11,
        "core_version"@.len() == 12,
        "regex_engine"@.len() == 12,
        "policy_document"@.len() == 15,
        "schema_validator"@.len() == 16,
        "uri_template_engine"@.len() == 19,
        "mcp_protocol_version"@.len() == 20,
        "core_version"@ != "regex_engine"@,
{
    reveal_strlit("core_digest");
    reveal_strlit("core_version");
    reveal_strlit("regex_engine");
    reveal_strlit("policy_document");
    reveal_strlit("schema_validator");
    reveal_strlit("uri_template_engine");
    reveal_strlit("mcp_protocol_version");
    assert("core_version"@[0] != "regex_engine"@[0]);
}

/// Reading back the record of a profile gives the same profile.
pub proof fn lemma_profile_roundtrip(v: Value, p: ExecutionProfile)
    requires
        spec_profile_record(v, p.spec_fields().0, p.spec_fields().1, p.spec_fields().2, p.spec_fields().3, p.spec_fields().4),
    ensures
        spec_parse_profile(v) == Ok::<ProfileFields, MetadataError>(p.spec_fields()),
{
    let f = p.spec_fields();
    let e = v->Object_0.entries@;
    p.spec_core_digest().lemma_len();
    p.spec_policy_document().lemma_len();
    p.spec_regex_engine().spec_implementation_digest().lemma_len();
    p.spec_schema_validator().spec_implementation_digest().lemma_len();
    p.spec_uri_template_engine().spec_implementation_digest().lemma_len();
    lemma_profile_keys();
    assert(crate::cbor::map::spec_views_distinct(e));
    crate::cbor::map::lemma_find(e, "core_digest"@, 0);
    crate::cbor::map::lemma_find(e, "core_version"@, 1);
    crate::cbor::map::lemma_find(e, "regex_engine"@, 2);
    crate::cbor::map::lemma_find(e, "policy_document"@, 3);
    crate::cbor::map::lemma_find(e, "schema_validator"@, 4);
    crate::cbor::map::lemma_find(e, "uri_template_engine"@, 5);
    crate::cbor::map::lemma_find(e, "mcp_protocol_version"@, 6);
    let k = spec_profile_fields();
    assert forall|j: int| 0 <= j < e.len() implies spec_known_field(k, (#[trigger] e[j]).0@) by {
        if j == 0 { assert(k[0]@ == e[j].0@); }
        if j == 1 { assert(k[1]@ == e[j].0@); }
        if j == 2 { assert(k[4]@ == e[j].0@); }
        if j == 3 { assert(k[3]@ == e[j].0@); }
        if j == 4 { assert(k[5]@ == e[j].0@); }
        if j == 5 { assert(k[6]@ == e[j].0@); }
        if j == 6 { assert(k[2]@ == e[j].0@); }
    }
    assert(spec_first_missing(e, k, 7) is None);
    assert(spec_first_missing(e, k, 6) is None);
    assert(spec_first_missing(e, k, 5) is None);
    assert(spec_first_missing(e, k, 4) is None);
    assert(spec_first_missing(e, k, 3) is None);
    assert(spec_first_missing(e, k, 2) is None);
    assert(spec_first_missing(e, k, 1) is None);
    assert(spec_first_missing(e, k, 0) is None);
    crate::digest::lemma_digest_text_roundtrip(f.0);
    crate::digest::lemma_digest_text_roundtrip(f.4);
    lemma_engine_roundtrip(e[2].1, f.1.0, f.1.1, f.1.2, f.1.3);
    lemma_engine_roundtrip(e[4].1, f.2.0, f.2.1, f.2.2, f.2.3);
    lemma_engine_roundtrip(e[5].1, f.3.0, f.3.1, f.3.2, f.3.3);
}

impl ExecutionProfile {
    /// Creates the supported core/MCP profile, bounding the complete embedded
    /// engine records. External engine version strings are preserved.
    pub fn new(core_digest: Digest, regex_engine: EngineIdentity, schema_validator: EngineIdentity,
        uri_template_engine: EngineIdentity, policy_document: Digest, limits: &crate::cbor::limits::Limits)
        -> (res: Result<ExecutionProfile, MetadataError>)
        ensures
            !limits.spec_valid() ==> res matches Err(MetadataError::Codec(_)),
            limits.spec_valid() ==> match spec_profile_build(*limits, core_digest@, spec_engine_view(regex_engine),
                spec_engine_view(schema_validator), spec_engine_view(uri_template_engine), policy_document@) {
                Ok(()) => res matches Ok(r) && r.spec_core_digest() == core_digest && r.spec_regex_engine() == regex_engine
                    && r.spec_schema_validator() == schema_validator && r.spec_uri_template_engine() == uri_template_engine
                    && r.spec_policy_document() == policy_document,
                Err(e) => res == Err::<ExecutionProfile, MetadataError>(e),
            },
    {
        let result = ExecutionProfile { core_digest, regex_engine, schema_validator, uri_template_engine, policy_document };
        result.to_value(limits)?;
        Ok(result)
    }

    /// Bounds an already decoded record under the codec limits, then reads it.
    pub fn from_value(v: &Value, limits: &crate::cbor::limits::Limits) -> (res: Result<ExecutionProfile, MetadataError>)
        ensures
            !(limits.spec_valid() && crate::cbor::encode::spec_fits(*v, *limits)) ==> res matches Err(MetadataError::Codec(_)),
            limits.spec_valid() && crate::cbor::encode::spec_fits(*v, *limits) ==> match spec_parse_profile(*v) {
                Ok(f) => res matches Ok(r) && r.spec_fields() == f,
                Err(e) => res == Err::<ExecutionProfile, MetadataError>(e),
            },
    {
        if let Err(e) = crate::cbor::encode::encode(v, limits) {
            return Err(MetadataError::Codec(e));
        }
        ExecutionProfile::parse(v)
    }

    /// Encodes exactly one canonical profile record.
    pub fn encode(&self, limits: &crate::cbor::limits::Limits) -> (res: Result<Vec<u8>, MetadataError>)
        ensures
            !limits.spec_valid() ==> res matches Err(MetadataError::Codec(_)),
            res matches Ok(b) ==> exists|v: Value| spec_profile_record(v, self.spec_fields().0, self.spec_fields().1,
                self.spec_fields().2, self.spec_fields().3, self.spec_fields().4) && b@ == crate::cbor::value::spec_encode(v),
            limits.spec_valid() ==> match spec_profile_build(*limits, self.spec_core_digest()@,
                spec_engine_view(self.spec_regex_engine()), spec_engine_view(self.spec_schema_validator()),
                spec_engine_view(self.spec_uri_template_engine()), self.spec_policy_document()@) {
                Ok(()) => exists|v: crate::cbor::value::Value| (crate::cbor::encode::spec_fits(v, *limits) <==> res is Ok) && (res matches Ok(b) ==> b@ == crate::cbor::value::spec_encode(v)) && spec_profile_record(v, self.spec_core_digest()@,
                    spec_engine_view(self.spec_regex_engine()), spec_engine_view(self.spec_schema_validator()),
                    spec_engine_view(self.spec_uri_template_engine()), self.spec_policy_document()@),
                Err(e) => res == Err::<Vec<u8>, MetadataError>(e),
            },
    {
        let v = self.to_value(limits)?;
        match crate::cbor::encode::encode(&v, limits) {
            Ok(b) => Ok(b),
            Err(e) => Err(MetadataError::Codec(e)),
        }
    }

    /// Decodes exactly one canonical profile record, rejecting trailing data.
    pub fn decode(bytes: &[u8], limits: &crate::cbor::limits::Limits) -> (res: Result<ExecutionProfile, MetadataError>)
        ensures
            !limits.spec_valid() ==> res matches Err(MetadataError::Codec(_)),
            res matches Ok(r) ==> exists|w: Value| #[trigger] crate::cbor::value::spec_encode(w) == bytes@
                && spec_parse_profile(w) == Ok::<ProfileFields, MetadataError>(r.spec_fields()),
            limits.spec_valid() && (exists|x: crate::cbor::value::Value| #[trigger] crate::cbor::value::spec_encode(x) == bytes@
                && crate::cbor::value::spec_wf(x) && crate::cbor::value::spec_height(x) <= limits.max_depth
                && bytes@.len() <= limits.max_document_bytes) ==> exists|w: crate::cbor::value::Value|
                #[trigger] crate::cbor::value::spec_encode(w) == bytes@ && crate::cbor::value::spec_wf(w) && (match spec_parse_profile(w) {
                Ok(f) => res matches Ok(r) && r.spec_fields() == f,
                Err(e) => res == Err::<ExecutionProfile, MetadataError>(e),
            }),
    {
        let v = match crate::cbor::decode::decode(bytes, limits) {
            Ok(v) => v,
            Err(e) => return Err(MetadataError::Codec(e)),
        };
        proof { assert(crate::cbor::value::spec_encode(v) == bytes@ && crate::cbor::value::spec_wf(v)); }
        let r = ExecutionProfile::parse(&v)?;
        assert(crate::cbor::value::spec_encode(v) == bytes@);
        Ok(r)
    }
}

} // verus!

verus! {

/// The fields of a server identity: deployment, transport, implementation name and version.
pub type ServerFields = (Seq<char>, McpTransport, Seq<char>, Seq<char>);

/// The fields of a server identity, as its record carries them.
pub open spec fn spec_server_view(s: ServerIdentity) -> ServerFields {
    (s.spec_deployment_id(), s.spec_transport(), s.spec_implementation_name(), s.spec_implementation_version())
}

/// The kind-specific fields of a binding, as its record carries them.
pub enum BindingKindFields {
    /// A tool: its name and its input and output schema digests.
    Tool { name: Seq<char>, input_schema: Seq<u8>, output_schema: Seq<u8> },
    /// A fixed resource URI.
    Resource { uri: Seq<char> },
    /// A URI template.
    Template { uri_template: Seq<char> },
    /// A server-side prompt name.
    Prompt { name: Seq<char> },
}

/// The kind-specific fields of a binding kind.
pub open spec fn spec_kind_view(k: McpBindingKind) -> BindingKindFields {
    match k {
        McpBindingKind::Tool { name, input_schema, output_schema } =>
            BindingKindFields::Tool { name: name@, input_schema: input_schema@, output_schema: output_schema@ },
        McpBindingKind::Resource { uri } => BindingKindFields::Resource { uri: uri@ },
        McpBindingKind::Template { uri_template } => BindingKindFields::Template { uri_template: uri_template@ },
        McpBindingKind::Prompt { name } => BindingKindFields::Prompt { name: name@ },
    }
}

/// The fields of a binding: server, descriptor digest, kind-specific fields.
pub type BindingFields = (ServerFields, Seq<u8>, BindingKindFields);

/// Everything a server record charges when embedded as a field value.
pub open spec fn spec_server_child_charges(s: ServerFields) -> Seq<crate::record_accounting::Charge> {
    seq![crate::record_accounting::Charge::Collection { len: 4, depth: 1 }]
        + spec_pair_at("transport"@, spec_transport_name(s.1), 2)
        + spec_pair_at("deployment_id"@, s.0, 2)
        + spec_pair_at("implementation_name"@, s.2, 2)
        + spec_pair_at("implementation_version"@, s.3, 2)
}

/// A server record embedded as a field value charges its header and its
/// four name/text pairs one level down.
proof fn lemma_server_child_charges(v: Value, s: ServerFields)
    requires
        spec_server_record(v, s.0, s.1, s.2, s.3),
    ensures
        crate::record_accounting::spec_value_charges(v, 1) == spec_server_child_charges(s),
{
    let e = v->Object_0.entries@;
    let e1 = e.drop_first();
    let e2 = e1.drop_first();
    let e3 = e2.drop_first();
    crate::record_accounting::lemma_entries_charges_front(e, 2);
    crate::record_accounting::lemma_entries_charges_front(e1, 2);
    crate::record_accounting::lemma_entries_charges_front(e2, 2);
    crate::record_accounting::lemma_entries_charges_front(e3, 2);
    assert(e3.drop_first() =~= Seq::<(String, Value)>::empty());
    assert(crate::record_accounting::spec_entries_charges(e3.drop_first(), 2) =~= Seq::empty());
    assert(crate::record_accounting::spec_entries_charges(e, 2) =~= spec_pair_at("transport"@, spec_transport_name(s.1), 2)
        + spec_pair_at("deployment_id"@, s.0, 2) + spec_pair_at("implementation_name"@, s.2, 2)
        + spec_pair_at("implementation_version"@, s.3, 2));
    assert(crate::record_accounting::spec_value_charges(v, 1) =~= spec_server_child_charges(s));
}

/// The number of fields of a binding record of this kind.
pub open spec fn spec_binding_len(k: BindingKindFields) -> usize {
    if k is Tool { 6 } else { 4 }
}

/// The kind-specific name/text pairs, in build order.
pub open spec fn spec_kind_charges(k: BindingKindFields) -> Seq<crate::record_accounting::Charge> {
    match k {
        BindingKindFields::Tool { name, input_schema, output_schema } => spec_pair_charges("kind"@, "tool"@)
            + (spec_pair_charges("name"@, name) + (spec_pair_charges("input_schema"@, crate::digest::spec_digest_text(input_schema))
            + spec_pair_charges("output_schema"@, crate::digest::spec_digest_text(output_schema)))),
        BindingKindFields::Resource { uri } => spec_pair_charges("kind"@, "resource"@) + spec_pair_charges("uri"@, uri),
        BindingKindFields::Template { uri_template } => spec_pair_charges("kind"@, "template"@)
            + spec_pair_charges("uri_template"@, uri_template),
        BindingKindFields::Prompt { name } => spec_pair_charges("kind"@, "prompt"@) + spec_pair_charges("name"@, name),
    }
}

/// Building a binding record: its header, the server record on its own and
/// then as a field, the descriptor digest, and the kind-specific fields.
pub open spec fn spec_binding_build(l: crate::cbor::limits::Limits, f: BindingFields) -> Result<(), MetadataError> {
    let head = crate::record_accounting::Charge::Collection { len: spec_binding_len(f.2), depth: 0 };
    match spec_meta_charges(l, (0, 0, 0), seq![head]) {
        Err(e) => Err(e),
        Ok(c1) => match spec_meta_charges(l, (0, 0, 0), spec_server_charges(f.0.0, f.0.1, f.0.2, f.0.3)) {
            Err(e) => Err(e),
            Ok(_) => match spec_meta_charges(l, c1, seq![spec_text_charge("server"@, 1)] + spec_server_child_charges(f.0)) {
                Err(e) => Err(e),
                Ok(c2) => match spec_meta_charges(l, c2, spec_pair_charges("descriptor"@, crate::digest::spec_digest_text(f.1))
                    + spec_kind_charges(f.2)) {
                    Err(e) => Err(e),
                    Ok(_) => Ok(()),
                },
            },
        },
    }
}

/// An entry with key `k` holding the server record of `s`.
pub open spec fn spec_server_entry(e: (String, Value), k: Seq<char>, s: ServerFields) -> bool {
    e.0@ == k && spec_server_record(e.1, s.0, s.1, s.2, s.3)
}

/// The canonical binding record: exactly the fields of its kind, in canonical key order.
pub open spec fn spec_binding_record(v: Value, f: BindingFields) -> bool {
    match v {
        Value::Object(m) => {
            let e = m.entries@;
            let d = crate::digest::spec_digest_text(f.1);
            match f.2 {
                BindingKindFields::Tool { name, input_schema, output_schema } => {
                    &&& e.len() == 6
                    &&& spec_text_entry(e[0], "kind"@, "tool"@)
                    &&& spec_text_entry(e[1], "name"@, name)
                    &&& spec_server_entry(e[2], "server"@, f.0)
                    &&& spec_text_entry(e[3], "descriptor"@, d)
                    &&& spec_text_entry(e[4], "input_schema"@, crate::digest::spec_digest_text(input_schema))
                    &&& spec_text_entry(e[5], "output_schema"@, crate::digest::spec_digest_text(output_schema))
                },
                BindingKindFields::Resource { uri } => {
                    &&& e.len() == 4
                    &&& spec_text_entry(e[0], "uri"@, uri)
                    &&& spec_text_entry(e[1], "kind"@, "resource"@)
                    &&& spec_server_entry(e[2], "server"@, f.0)
                    &&& spec_text_entry(e[3], "descriptor"@, d)
                },
                BindingKindFields::Template { uri_template } => {
                    &&& e.len() == 4
                    &&& spec_text_entry(e[0], "kind"@, "template"@)
                    &&& spec_server_entry(e[1], "server"@, f.0)
                    &&& spec_text_entry(e[2], "descriptor"@, d)
                    &&& spec_text_entry(e[3], "uri_template"@, uri_template)
                },
                BindingKindFields::Prompt { name } => {
                    &&& e.len() == 4
                    &&& spec_text_entry(e[0], "kind"@, "prompt"@)
                    &&& spec_text_entry(e[1], "name"@, name)
                    &&& spec_server_entry(e[2], "server"@, f.0)
                    &&& spec_text_entry(e[3], "descriptor"@, d)
                },
            }
        },
        _ => false,
    }
}

impl McpBinding {
    /// The fields of this binding, as its record carries them.
    pub open spec fn spec_fields(&self) -> BindingFields {
        (spec_server_view(self.spec_server()), self.spec_descriptor()@, spec_kind_view(self.spec_kind()))
    }

    /// Produces the canonical binding record, bounding every value first.
    pub fn to_value(&self, limits: &crate::cbor::limits::Limits) -> (res: Result<Value, MetadataError>)
        ensures
            !limits.spec_valid() ==> res matches Err(MetadataError::Codec(_)),
            limits.spec_valid() ==> match spec_binding_build(*limits, self.spec_fields()) {
                Ok(()) => res matches Ok(v) && spec_binding_record(v, self.spec_fields()),
                Err(e) => res == Err::<Value, MetadataError>(e),
            },
    {
        let mut acc = match crate::record_accounting::RecordAccounting::new(limits) {
            Ok(a) => a,
            Err(e) => return Err(MetadataError::Codec(e)),
        };
        let ghost l = *limits;
        let ghost f = self.spec_fields();
        let len: usize = match &self.kind {
            McpBindingKind::Tool { .. } => 6,
            _ => 4,
        };
        let head = crate::record_accounting::Charge::Collection { len, depth: 0 };
        proof { crate::record_accounting::lemma_charges_single(l, (0, 0, 0), head); }
        if let Err(e) = acc.apply(head) {
            return Err(MetadataError::LimitExceeded { limit: e.limit, maximum: e.maximum });
        }
        let server = self.server.to_value(limits)?;
        proof { lemma_server_child_charges(server, f.0); }
        charge_child(&mut acc, "server", &server)?;
        let descriptor = self.descriptor.to_text();
        let ghost pd = spec_pair_charges("descriptor"@, descriptor@);
        proof { lemma_meta_append(l, acc.counters(), pd, spec_kind_charges(f.2)); }
        charge_pair(&mut acc, "descriptor", descriptor.as_str())?;
        let mut entries: Vec<(String, Value)> = Vec::new();
        match &self.kind {
            McpBindingKind::Tool { name, input_schema, output_schema } => {
                let input = input_schema.to_text();
                let output = output_schema.to_text();
                let ghost pk = spec_pair_charges("kind"@, "tool"@);
                let ghost pn = spec_pair_charges("name"@, name@);
                let ghost pi = spec_pair_charges("input_schema"@, input@);
                let ghost po = spec_pair_charges("output_schema"@, output@);
                proof { lemma_meta_append(l, acc.counters(), pk, pn + (pi + po)); }
                charge_pair(&mut acc, "kind", "tool")?;
                proof { lemma_meta_append(l, acc.counters(), pn, pi + po); }
                charge_pair(&mut acc, "name", name.as_str())?;
                proof { lemma_meta_append(l, acc.counters(), pi, po); }
                charge_pair(&mut acc, "input_schema", input.as_str())?;
                charge_pair(&mut acc, "output_schema", output.as_str())?;
                entries.push(text_entry("kind", "tool"));
                entries.push(text_entry("name", name.as_str()));
                entries.push((String::from_str("server"), server));
                entries.push(text_entry("descriptor", descriptor.as_str()));
                entries.push(text_entry("input_schema", input.as_str()));
                entries.push(text_entry("output_schema", output.as_str()));
            },
            McpBindingKind::Resource { uri } => {
                proof { lemma_meta_append(l, acc.counters(), spec_pair_charges("kind"@, "resource"@), spec_pair_charges("uri"@, uri@)); }
                charge_pair(&mut acc, "kind", "resource")?;
                charge_pair(&mut acc, "uri", uri.as_str())?;
                entries.push(text_entry("uri", uri.as_str()));
                entries.push(text_entry("kind", "resource"));
                entries.push((String::from_str("server"), server));
                entries.push(text_entry("descriptor", descriptor.as_str()));
            },
            McpBindingKind::Template { uri_template } => {
                proof { lemma_meta_append(l, acc.counters(), spec_pair_charges("kind"@, "template"@),
                    spec_pair_charges("uri_template"@, uri_template@)); }
                charge_pair(&mut acc, "kind", "template")?;
                charge_pair(&mut acc, "uri_template", uri_template.as_str())?;
                entries.push(text_entry("kind", "template"));
                entries.push((String::from_str("server"), server));
                entries.push(text_entry("descriptor", descriptor.as_str()));
                entries.push(text_entry("uri_template", uri_template.as_str()));
            },
            McpBindingKind::Prompt { name } => {
                proof { lemma_meta_append(l, acc.counters(), spec_pair_charges("kind"@, "prompt"@), spec_pair_charges("name"@, name@)); }
                charge_pair(&mut acc, "kind", "prompt")?;
                charge_pair(&mut acc, "name", name.as_str())?;
                entries.push(text_entry("kind", "prompt"));
                entries.push(text_entry("name", name.as_str()));
                entries.push((String::from_str("server"), server));
                entries.push(text_entry("descriptor", descriptor.as_str()));
            },
        }
        Ok(Value::Object(ValueMap { entries }))
    }
}

} // verus!

verus! {

/// The field names of a binding record of kind `k`, in UTF-8 order, or
/// `None` for an unknown kind.
pub open spec fn spec_binding_field_names(k: Seq<char>) -> Option<Seq<&'static str>> {
    if k == "tool"@ {
        Some(seq!["descriptor", "input_schema", "kind", "name", "output_schema", "server"])
    } else if k == "resource"@ {
        Some(seq!["descriptor", "kind", "server", "uri"])
    } else if k == "template"@ {
        Some(seq!["descriptor", "kind", "server", "uri_template"])
    } else if k == "prompt"@ {
        Some(seq!["descriptor", "kind", "name", "server"])
    } else {
        None
    }
}

/// Reading the server record held by the `server` field.
pub open spec fn spec_server_field(entries: Seq<(String, Value)>) -> Result<ServerFields, MetadataError> {
    match crate::cbor::map::spec_find(entries, "server"@) {
        Some(x) => spec_parse_server(x),
        None => Err(MetadataError::MissingField("server")),
    }
}

/// Reading the kind-specific fields of a binding of kind `k`.
pub open spec fn spec_kind_fields(entries: Seq<(String, Value)>, k: Seq<char>) -> Result<BindingKindFields, MetadataError> {
    if k == "tool"@ {
        match spec_text_field(entries, "name") {
            Err(x) => Err(x),
            Ok(name) => match spec_digest_field(entries, "input_schema") {
                Err(x) => Err(x),
                Ok(i) => match spec_digest_field(entries, "output_schema") {
                    Err(x) => Err(x),
                    Ok(o) => Ok(BindingKindFields::Tool { name, input_schema: i, output_schema: o }),
                },
            },
        }
    } else if k == "resource"@ {
        match spec_text_field(entries, "uri") {
            Err(x) => Err(x),
            Ok(uri) => Ok(BindingKindFields::Resource { uri }),
        }
    } else if k == "template"@ {
        match spec_text_field(entries, "uri_template") {
            Err(x) => Err(x),
            Ok(t) => Ok(BindingKindFields::Template { uri_template: t }),
        }
    } else {
        match spec_text_field(entries, "name") {
            Err(x) => Err(x),
            Ok(name) => Ok(BindingKindFields::Prompt { name }),
        }
    }
}

/// Reading a binding record: its kind selects the closed field set, then the
/// server, descriptor and kind-specific fields are read in that order.
pub open spec fn spec_parse_binding(v: Value) -> Result<BindingFields, MetadataError> {
    match v {
        Value::Object(m) => match crate::cbor::map::spec_find(m.entries@, "kind"@) {
            None => Err(MetadataError::MissingField("kind")),
            Some(Value::Text(k)) => match spec_binding_field_names(k@) {
                None => Err(MetadataError::UnknownBindingKind),
                Some(names) => match spec_closed(v, "MCP binding", names) {
                    Err(e) => Err(e),
                    Ok(e) => match spec_server_field(e) {
                        Err(x) => Err(x),
                        Ok(s) => match spec_digest_field(e, "descriptor") {
                            Err(x) => Err(x),
                            Ok(d) => match spec_kind_fields(e, k@) {
                                Err(x) => Err(x),
                                Ok(kf) => Ok((s, d, kf)),
                            },
                        },
                    },
                },
            },
            Some(_) => Err(MetadataError::InvalidShape("kind")),
        },
        _ => Err(MetadataError::InvalidShape("MCP binding")),
    }
}

proof fn lemma_kind_names()
    ensures
        "tool"@ != "resource"@,
        "tool"@ != "template"@,
        "tool"@ != "prompt"@,
        "resource"@ != "template"@,
        "resource"@ != "prompt"@,
        "template"@ != "prompt"@,
{
    reveal_strlit("tool");
    reveal_strlit("resource");
    reveal_strlit("template");
    reveal_strlit("prompt");
    assert("tool"@.len() == 4);
    assert("prompt"@.len() == 6);
    assert("resource"@[0] != "template"@[0]);
}

fn server_field(m: &ValueMap) -> (res: Result<ServerIdentity, MetadataError>)
    ensures
        match spec_server_field(m.entries@) {
            Ok(s) => res matches Ok(r) && spec_server_view(r) == s,
            Err(e) => res == Err::<ServerIdentity, MetadataError>(e),
        },
{
    match m.get("server") {
        Some(x) => ServerIdentity::parse(x),
        None => Err(MetadataError::MissingField("server")),
    }
}

impl McpBinding {
    /// Reads a binding record: the kind selects the closed field set.
    pub fn parse(v: &Value) -> (res: Result<McpBinding, MetadataError>)
        ensures
            match spec_parse_binding(*v) {
                Ok(f) => res matches Ok(r) && r.spec_fields() == f,
                Err(e) => res == Err::<McpBinding, MetadataError>(e),
            },
    {
        let m = match v {
            Value::Object(m) => m,
            _ => return Err(MetadataError::InvalidShape("MCP binding")),
        };
        let kind = match m.get("kind") {
            None => return Err(MetadataError::MissingField("kind")),
            Some(Value::Text(k)) => k.as_str(),
            Some(_) => return Err(MetadataError::InvalidShape("kind")),
        };
        proof { lemma_kind_names(); }
        let tag: u8 = if same_text(kind, "tool") {
            0
        } else if same_text(kind, "resource") {
            1
        } else if same_text(kind, "template") {
            2
        } else if same_text(kind, "prompt") {
            3
        } else {
            return Err(MetadataError::UnknownBindingKind);
        };
        if tag == 0 {
            let fields: [&'static str; 6] = ["descriptor", "input_schema", "kind", "name", "output_schema", "server"];
            assert(spec_binding_field_names(kind@) == Some(fields@));
            closed(v, "MCP binding", &fields)?;
        } else if tag == 1 {
            let fields: [&'static str; 4] = ["descriptor", "kind", "server", "uri"];
            assert(spec_binding_field_names(kind@) == Some(fields@));
            closed(v, "MCP binding", &fields)?;
        } else if tag == 2 {
            let fields: [&'static str; 4] = ["descriptor", "kind", "server", "uri_template"];
            assert(spec_binding_field_names(kind@) == Some(fields@));
            closed(v, "MCP binding", &fields)?;
        } else {
            let fields: [&'static str; 4] = ["descriptor", "kind", "name", "server"];
            assert(spec_binding_field_names(kind@) == Some(fields@));
            closed(v, "MCP binding", &fields)?;
        }
        let server = server_field(m)?;
        let descriptor = digest_field(m, "descriptor")?;
        let kind = if tag == 0 {
            let name = text_field(m, "name")?;
            let input_schema = digest_field(m, "input_schema")?;
            let output_schema = digest_field(m, "output_schema")?;
            McpBindingKind::Tool { name, input_schema, output_schema }
        } else if tag == 1 {
            McpBindingKind::Resource { uri: text_field(m, "uri")? }
        } else if tag == 2 {
            McpBindingKind::Template { uri_template: text_field(m, "uri_template")? }
        } else {
            McpBindingKind::Prompt { name: text_field(m, "name")? }
        };
        Ok(McpBinding { server, descriptor, kind })
    }
}

} // verus!

verus! {

proof fn lemma_binding_keys()
    ensures
        "uri"@.len() == 3,
        "kind"@.len() == 4,
        "name"@.len() == 4,
        "server"@.len() == 6,
        "descriptor"@.len() == 10,
        "input_schema"@.len() == 12,
        "uri_template"@.len() == 12,
        "output_schema"@.len() == 13,
        "kind"@ != "name"@,
        "input_schema"@ != "uri_template"@,
{
    reveal_strlit("uri");
    reveal_strlit("kind");
    reveal_strlit("name");
    reveal_strlit("server");
    reveal_strlit("descriptor");
    reveal_strlit("input_schema");
    reveal_strlit("uri_template");
    reveal_strlit("output_schema");
    assert("kind"@[0] != "name"@[0]);
    assert("input_schema"@[0] != "uri_template"@[0]);
}

/// Reading back the record of a binding gives the same binding.
pub proof fn lemma_binding_roundtrip(v: Value, b: McpBinding)
    requires
        spec_binding_record(v, b.spec_fields()),
    ensures
        spec_parse_binding(v) == Ok::<BindingFields, MetadataError>(b.spec_fields()),
{
    let f = b.spec_fields();
    let e = v->Object_0.entries@;
    b.spec_descriptor().lemma_len();
    lemma_binding_keys();
    lemma_kind_names();
    crate::digest::lemma_digest_text_roundtrip(f.1);
    match b.spec_kind() {
        McpBindingKind::Tool { name, input_schema, output_schema } => {
            input_schema.lemma_len();
            output_schema.lemma_len();
            crate::digest::lemma_digest_text_roundtrip(input_schema@);
            crate::digest::lemma_digest_text_roundtrip(output_schema@);
            assert(crate::cbor::map::spec_views_distinct(e));
            crate::cbor::map::lemma_find(e, "kind"@, 0);
            crate::cbor::map::lemma_find(e, "name"@, 1);
            crate::cbor::map::lemma_find(e, "server"@, 2);
            crate::cbor::map::lemma_find(e, "descriptor"@, 3);
            crate::cbor::map::lemma_find(e, "input_schema"@, 4);
            crate::cbor::map::lemma_find(e, "output_schema"@, 5);
            let k = spec_binding_field_names("tool"@)->Some_0;
            assert forall|j: int| 0 <= j < e.len() implies spec_known_field(k, (#[trigger] e[j]).0@) by {
                if j == 0 { assert(k[2]@ == e[j].0@); }
                if j == 1 { assert(k[3]@ == e[j].0@); }
                if j == 2 { assert(k[5]@ == e[j].0@); }
                if j == 3 { assert(k[0]@ == e[j].0@); }
                if j == 4 { assert(k[1]@ == e[j].0@); }
                if j == 5 { assert(k[4]@ == e[j].0@); }
            }
            assert(spec_first_missing(e, k, 6) is None);
            assert(spec_first_missing(e, k, 5) is None);
            assert(spec_first_missing(e, k, 4) is None);
            assert(spec_first_missing(e, k, 3) is None);
            assert(spec_first_missing(e, k, 2) is None);
            assert(spec_first_missing(e, k, 1) is None);
            assert(spec_first_missing(e, k, 0) is None);
            lemma_server_roundtrip(e[2].1, f.0.0, f.0.1, f.0.2, f.0.3);
        },
        McpBindingKind::Resource { uri } => {
            assert(crate::cbor::map::spec_views_distinct(e));
            crate::cbor::map::lemma_find(e, "uri"@, 0);
            crate::cbor::map::lemma_find(e, "kind"@, 1);
            crate::cbor::map::lemma_find(e, "server"@, 2);
            crate::cbor::map::lemma_find(e, "descriptor"@, 3);
            let k = spec_binding_field_names("resource"@)->Some_0;
            assert forall|j: int| 0 <= j < e.len() implies spec_known_field(k, (#[trigger] e[j]).0@) by {
                if j == 0 { assert(k[3]@ == e[j].0@); }
                if j == 1 { assert(k[1]@ == e[j].0@); }
                if j == 2 { assert(k[2]@ == e[j].0@); }
                if j == 3 { assert(k[0]@ == e[j].0@); }
            }
            assert(spec_first_missing(e, k, 4) is None);
            assert(spec_first_missing(e, k, 3) is None);
            assert(spec_first_missing(e, k, 2) is None);
            assert(spec_first_missing(e, k, 1) is None);
            assert(spec_first_missing(e, k, 0) is None);
            lemma_server_roundtrip(e[2].1, f.0.0, f.0.1, f.0.2, f.0.3);
        },
        McpBindingKind::Template { uri_template } => {
            assert(crate::cbor::map::spec_views_distinct(e));
            crate::cbor::map::lemma_find(e, "kind"@, 0);
            crate::cbor::map::lemma_find(e, "server"@, 1);
            crate::cbor::map::lemma_find(e, "descriptor"@, 2);
            crate::cbor::map::lemma_find(e, "uri_template"@, 3);
            let k = spec_binding_field_names("template"@)->Some_0;
            assert forall|j: int| 0 <= j < e.len() implies spec_known_field(k, (#[trigger] e[j]).0@) by {
                if j == 0 { assert(k[1]@ == e[j].0@); }
                if j == 1 { assert(k[2]@ == e[j].0@); }
                if j == 2 { assert(k[0]@ == e[j].0@); }
                if j == 3 { assert(k[3]@ == e[j].0@); }
            }
            assert(spec_first_missing(e, k, 4) is None);
            assert(spec_first_missing(e, k, 3) is None);
            assert(spec_first_missing(e, k, 2) is None);
            assert(spec_first_missing(e, k, 1) is None);
            assert(spec_first_missing(e, k, 0) is None);
            lemma_server_roundtrip(e[1].1, f.0.0, f.0.1, f.0.2, f.0.3);
        },
        McpBindingKind::Prompt { name } => {
            assert(crate::cbor::map::spec_views_distinct(e));
            crate::cbor::map::lemma_find(e, "kind"@, 0);
            crate::cbor::map::lemma_find(e, "name"@, 1);
            crate::cbor::map::lemma_find(e, "server"@, 2);
            crate::cbor::map::lemma_find(e, "descriptor"@, 3);
            let k = spec_binding_field_names("prompt"@)->Some_0;
            assert forall|j: int| 0 <= j < e.len() implies spec_known_field(k, (#[trigger] e[j]).0@) by {
                if j == 0 { assert(k[1]@ == e[j].0@); }
                if j == 1 { assert(k[2]@ == e[j].0@); }
                if j == 2 { assert(k[3]@ == e[j].0@); }
                if j == 3 { assert(k[0]@ == e[j].0@); }
            }
            assert(spec_first_missing(e, k, 4) is None);
            assert(spec_first_missing(e, k, 3) is None);
            assert(spec_first_missing(e, k, 2) is None);
            assert(spec_first_missing(e, k, 1) is None);
            assert(spec_first_missing(e, k, 0) is None);
            lemma_server_roundtrip(e[2].1, f.0.0, f.0.1, f.0.2, f.0.3);
        },
    }
}

impl McpBinding {
    /// Creates one closed kind-specific binding record under codec limits; it
    /// does not fetch or validate descriptors.
    pub fn new(server: ServerIdentity, descriptor: Digest, kind: McpBindingKind, limits: &crate::cbor::limits::Limits)
        -> (res: Result<McpBinding, MetadataError>)
        ensures
            !limits.spec_valid() ==> res matches Err(MetadataError::Codec(_)),
            limits.spec_valid() ==> match spec_binding_build(*limits, (spec_server_view(server), descriptor@, spec_kind_view(kind))) {
                Ok(()) => res matches Ok(r) && r.spec_server() == server && r.spec_descriptor() == descriptor && r.spec_kind() == kind,
                Err(e) => res == Err::<McpBinding, MetadataError>(e),
            },
    {
        let result = McpBinding { server, descriptor, kind };
        result.to_value(limits)?;
        Ok(result)
    }

    /// Bounds an already decoded record under the codec limits, then reads it.
    pub fn from_value(v: &Value, limits: &crate::cbor::limits::Limits) -> (res: Result<McpBinding, MetadataError>)
        ensures
            !(limits.spec_valid() && crate::cbor::encode::spec_fits(*v, *limits)) ==> res matches Err(MetadataError::Codec(_)),
            limits.spec_valid() && crate::cbor::encode::spec_fits(*v, *limits) ==> match spec_parse_binding(*v) {
                Ok(f) => res matches Ok(r) && r.spec_fields() == f,
                Err(e) => res == Err::<McpBinding, MetadataError>(e),
            },
    {
        if let Err(e) = crate::cbor::encode::encode(v, limits) {
            return Err(MetadataError::Codec(e));
        }
        McpBinding::parse(v)
    }

    /// Encodes exactly one canonical binding record.
    pub fn encode(&self, limits: &crate::cbor::limits::Limits) -> (res: Result<Vec<u8>, MetadataError>)
        ensures
            !limits.spec_valid() ==> res matches Err(MetadataError::Codec(_)),
            res matches Ok(b) ==> exists|v: Value| spec_binding_record(v, self.spec_fields()) && b@ == crate::cbor::value::spec_encode(v),
            limits.spec_valid() ==> match spec_binding_build(*limits, self.spec_fields()) {
                Ok(()) => exists|v: crate::cbor::value::Value| (crate::cbor::encode::spec_fits(v, *limits) <==> res is Ok) && (res matches Ok(b) ==> b@ == crate::cbor::value::spec_encode(v)) && spec_binding_record(v, self.spec_fields()),
                Err(e) => res == Err::<Vec<u8>, MetadataError>(e),
            },
    {
        let v = self.to_value(limits)?;
        match crate::cbor::encode::encode(&v, limits) {
            Ok(b) => Ok(b),
            Err(e) => Err(MetadataError::Codec(e)),
        }
    }

    /// Decodes exactly one canonical binding record, rejecting trailing data.
    pub fn decode(bytes: &[u8], limits: &crate::cbor::limits::Limits) -> (res: Result<McpBinding, MetadataError>)
        ensures
            !limits.spec_valid() ==> res matches Err(MetadataError::Codec(_)),
            res matches Ok(r) ==> exists|w: Value| #[trigger] crate::cbor::value::spec_encode(w) == bytes@
                && spec_parse_binding(w) == Ok::<BindingFields, MetadataError>(r.spec_fields()),
            limits.spec_valid() && (exists|x: crate::cbor::value::Value| #[trigger] crate::cbor::value::spec_encode(x) == bytes@
                && crate::cbor::value::spec_wf(x) && crate::cbor::value::spec_height(x) <= limits.max_depth
                && bytes@.len() <= limits.max_document_bytes) ==> exists|w: crate::cbor::value::Value|
                #[trigger] crate::cbor::value::spec_encode(w) == bytes@ && crate::cbor::value::spec_wf(w) && (match spec_parse_binding(w) {
                Ok(f) => res matches Ok(r) && r.spec_fields() == f,
                Err(e) => res == Err::<McpBinding, MetadataError>(e),
            }),
    {
        let v = match crate::cbor::decode::decode(bytes, limits) {
            Ok(v) => v,
            Err(e) => return Err(MetadataError::Codec(e)),
        };
        proof { assert(crate::cbor::value::spec_encode(v) == bytes@ && crate::cbor::value::spec_wf(v)); }
        let r = McpBinding::parse(&v)?;
        assert(crate::cbor::value::spec_encode(v) == bytes@);
        Ok(r)
    }

    /// Computes the `binding` record digest: a content identity, not producer
    /// authentication.
    pub fn digest(&self, limits: &crate::cbor::limits::Limits) -> (res: Result<Digest, MetadataError>)
        ensures
            res matches Ok(d) ==> exists|v: Value| spec_binding_record(v, self.spec_fields())
                && d@ == crate::digest::spec_sha256(crate::digest::spec_record_prefix(crate::digest::RecordKind::Binding)
                    + crate::cbor::value::spec_encode(v)),
    {
        let v = self.to_value(limits)?;
        match crate::digest::record_digest(crate::digest::RecordKind::Binding, &v, limits) {
            Ok(d) => Ok(d),
            Err(e) => Err(MetadataError::Codec(e)),
        }
    }
}

} // verus!

verus! {

use crate::record_accounting::{Charge, Counters, RecordAccounting};
use crate::types::model::{spec_port_model, spec_port_record, spec_port_steps, spec_port_value_charges, spec_ports_model,
    spec_names_distinct, PortModel};
use crate::types::TypeContext;

/// One step of building a metadata record with nested typed records.
pub enum MetaStep {
    /// One value charged.
    Charge(Charge),
    /// Values charged in order.
    Charges(Seq<Charge>),
    /// A nested record built on its own accounting first, with its outcome.
    Inner(Result<(), MetadataError>),
    /// Names that must be distinct, else the given failure.
    Distinct(Seq<Seq<char>>, MetadataError),
}

/// The outcome of one step.
pub open spec fn spec_mstep(l: crate::cbor::limits::Limits, c: Counters, st: MetaStep) -> Result<Counters, MetadataError> {
    match st {
        MetaStep::Charge(ch) => spec_meta_charges(l, c, seq![ch]),
        MetaStep::Charges(s) => spec_meta_charges(l, c, s),
        MetaStep::Inner(r) => match r {
            Ok(()) => Ok(c),
            Err(e) => Err(e),
        },
        MetaStep::Distinct(names, e) => if spec_names_distinct(names) { Ok(c) } else { Err(e) },
    }
}

/// The outcome of steps in order; the first failure is reported.
pub open spec fn spec_mrun(l: crate::cbor::limits::Limits, c: Counters, s: Seq<MetaStep>) -> Result<Counters, MetadataError>
    decreases s.len(),
{
    if s.len() == 0 {
        Ok(c)
    } else {
        match spec_mrun(l, c, s.drop_last()) {
            Ok(d) => spec_mstep(l, d, s.last()),
            Err(e) => Err(e),
        }
    }
}

/// Running a concatenation runs its parts in turn.
pub proof fn lemma_mrun_append(l: crate::cbor::limits::Limits, c: Counters, s: Seq<MetaStep>, t: Seq<MetaStep>)
    ensures
        spec_mrun(l, c, s + t) == match spec_mrun(l, c, s) {
            Ok(d) => spec_mrun(l, d, t),
            Err(e) => Err(e),
        },
    decreases t.len(),
{
    if t.len() == 0 {
        assert(s + t =~= s);
    } else {
        lemma_mrun_append(l, c, s, t.drop_last());
        assert((s + t).drop_last() =~= s + t.drop_last());
    }
}

/// A nonempty step sequence runs its first step, then the rest.
pub proof fn lemma_mrun_front(l: crate::cbor::limits::Limits, c: Counters, s: Seq<MetaStep>)
    requires
        s.len() > 0,
    ensures
        spec_mrun(l, c, s) == match spec_mstep(l, c, s[0]) {
            Ok(d) => spec_mrun(l, d, s.drop_first()),
            Err(e) => Err(e),
        },
{
    assert(s =~= seq![s[0]] + s.drop_first());
    lemma_mrun_append(l, c, seq![s[0]], s.drop_first());
    assert(seq![s[0]].drop_last() =~= Seq::<MetaStep>::empty());
    assert(spec_mrun(l, c, Seq::<MetaStep>::empty()) == Ok::<Counters, MetadataError>(c));
    assert(seq![s[0]].last() == s[0]);
}

/// Building a port's record on its own accounting, in signature context.
#[verifier::opaque]
pub open spec fn spec_port_inner(l: crate::cbor::limits::Limits, p: PortModel) -> Result<(), MetadataError> {
    match crate::types::model::spec_run(l, TypeContext::Signature, (0, 0, 0), spec_port_steps(p, 0)) {
        Ok(_) => Ok(()),
        Err(e) => Err(MetadataError::Type(e)),
    }
}

/// Charging one text of `t` at `depth`, as a step.
pub open spec fn spec_mtext(t: Seq<char>, depth: int) -> MetaStep {
    MetaStep::Charge(spec_text_charge(t, depth))
}

/// The steps of declared variable names at depth two.
pub open spec fn spec_names_steps(names: Seq<Seq<char>>) -> Seq<MetaStep>
    decreases names.len(),
{
    if names.len() == 0 {
        Seq::empty()
    } else {
        seq![spec_mtext(names[0], 2)] + spec_names_steps(names.drop_first())
    }
}

/// The steps of parameter ports: each built on its own, then charged whole
/// at depth two.
pub open spec fn spec_sig_ports_steps(l: crate::cbor::limits::Limits, ps: Seq<PortModel>) -> Seq<MetaStep>
    decreases ps.len(),
{
    if ps.len() == 0 {
        Seq::empty()
    } else {
        seq![MetaStep::Inner(spec_port_inner(l, ps[0])), MetaStep::Charges(spec_port_value_charges(ps[0], 2))]
            + spec_sig_ports_steps(l, ps.drop_first())
    }
}

/// `v` is a canonical port record of `p`.
#[verifier::opaque]
pub open spec fn spec_is_port_record(v: Value, p: PortModel) -> bool {
    spec_port_record(v, p)
}

/// A canonical port record is charged as its port's records are.
proof fn lemma_port_charges_at(v: Value, p: PortModel, depth: int)
    requires
        spec_is_port_record(v, p),
    ensures
        crate::record_accounting::spec_value_charges(v, depth) == spec_port_value_charges(p, depth),
{
    reveal(spec_is_port_record);
    crate::types::model::lemma_port_value_charges(v, p, depth);
}

/// A signature as mathematics: declared variables, parameter ports, result port.
pub type SignatureFields = (Seq<Seq<char>>, Seq<PortModel>, PortModel);

/// Everything building a signature record does, in order: the header, the
/// declared names, the parameters, the result, then the declaration check.
pub open spec fn spec_sig_steps(l: crate::cbor::limits::Limits, f: SignatureFields) -> Seq<MetaStep> {
    seq![MetaStep::Charge(Charge::Collection { len: 3, depth: 0 }), spec_mtext("type_parameters"@, 1),
        MetaStep::Charge(Charge::Collection { len: f.0.len() as usize, depth: 1 })]
        + (spec_names_steps(f.0)
        + (seq![spec_mtext("parameters"@, 1), MetaStep::Charge(Charge::Collection { len: f.1.len() as usize, depth: 1 })]
        + (spec_sig_ports_steps(l, f.1)
        + seq![MetaStep::Inner(spec_port_inner(l, f.2)), spec_mtext("returns"@, 1),
            MetaStep::Charges(spec_port_value_charges(f.2, 1)),
            MetaStep::Distinct(f.0, MetadataError::DuplicateTypeParameter)])))
}

/// The canonical signature record: `returns`, `parameters`, then
/// `type_parameters`, in canonical key order.
pub open spec fn spec_sig_record(v: Value, f: SignatureFields) -> bool {
    match v {
        Value::Object(m) => {
            &&& m.entries@.len() == 3
            &&& m.entries@[0].0@ == "returns"@
            &&& spec_is_port_record(m.entries@[0].1, f.2)
            &&& m.entries@[1].0@ == "parameters"@
            &&& (m.entries@[1].1 matches Value::Array(a) && a@.len() == f.1.len()
                && forall|i: int| 0 <= i < f.1.len() ==> spec_is_port_record(#[trigger] a@[i], f.1[i]))
            &&& m.entries@[2].0@ == "type_parameters"@
            &&& (m.entries@[2].1 matches Value::Array(a) && a@.len() == f.0.len()
                && forall|i: int| 0 <= i < f.0.len() ==> spec_text_is(#[trigger] a@[i], f.0[i]))
        },
        _ => false,
    }
}

/// Builds a port's record on its own accounting, in signature context.
fn port_inner(port: &Port, limits: &crate::cbor::limits::Limits) -> (res: Result<Value, MetadataError>)
    requires
        limits.spec_valid(),
    ensures
        match spec_port_inner(*limits, spec_port_model(*port)) {
            Ok(()) => res matches Ok(v) && spec_is_port_record(v, spec_port_model(*port)),
            Err(e) => res == Err::<Value, MetadataError>(e),
        },
{
    reveal(spec_port_inner);
    reveal(spec_is_port_record);
    match port.to_value(TypeContext::Signature, limits) {
        Ok(v) => Ok(v),
        Err(e) => Err(MetadataError::Type(e)),
    }
}

/// Charges one value of a metadata record.
fn mcharge(acc: &mut RecordAccounting, ch: Charge) -> (res: Result<(), MetadataError>)
    ensures
        final(acc).limits == old(acc).limits,
        match spec_mstep(*old(acc).limits, old(acc).counters(), MetaStep::Charge(ch)) {
            Ok(c) => res is Ok && final(acc).counters() == c,
            Err(e) => res == Err::<(), MetadataError>(e),
        },
{
    proof { crate::record_accounting::lemma_charges_single(*acc.limits, acc.counters(), ch); }
    match acc.apply(ch) {
        Ok(()) => Ok(()),
        Err(e) => Err(MetadataError::LimitExceeded { limit: e.limit, maximum: e.maximum }),
    }
}

/// Charges one text of a metadata record.
fn mtext(acc: &mut RecordAccounting, t: &str, d: usize) -> (res: Result<(), MetadataError>)
    ensures
        final(acc).limits == old(acc).limits,
        match spec_mstep(*old(acc).limits, old(acc).counters(), spec_mtext(t@, d as int)) {
            Ok(c) => res is Ok && final(acc).counters() == c,
            Err(e) => res == Err::<(), MetadataError>(e),
        },
{
    let len = t.as_bytes().len();
    assert(len == spec_utf8(t@).len());
    mcharge(acc, Charge::Text { len, depth: d })
}

/// Charges a whole nested value at `d`.
fn mvalue(acc: &mut RecordAccounting, v: &Value, d: usize) -> (res: Result<(), MetadataError>)
    requires
        old(acc).limits.spec_valid(),
    ensures
        final(acc).limits == old(acc).limits,
        match spec_mstep(*old(acc).limits, old(acc).counters(), MetaStep::Charges(crate::record_accounting::spec_value_charges(*v, d as int))) {
            Ok(c) => res is Ok && final(acc).counters() == c,
            Err(e) => res == Err::<(), MetadataError>(e),
        },
{
    match acc.value(v, d) {
        Ok(()) => Ok(()),
        Err(e) => Err(MetadataError::LimitExceeded { limit: e.limit, maximum: e.maximum }),
    }
}

} // verus!

verus! {

/// Whether declared names are pairwise distinct.
fn identifiers_distinct(names: &Vec<Identifier>) -> (res: bool)
    ensures
        res == spec_names_distinct(names@.map_values(|i: Identifier| i@)),
{
    let ghost ns = names@.map_values(|i: Identifier| i@);
    let mut a: usize = 0;
    while a < names.len()
        invariant
            ns == names@.map_values(|i: Identifier| i@),
            a <= names@.len(),
            forall|x: int, y: int| 0 <= x < y < names@.len() && x < a ==> spec_utf8(#[trigger] ns[x]) != spec_utf8(#[trigger] ns[y]),
        decreases names@.len() - a,
    {
        let mut b: usize = a + 1;
        while b < names.len()
            invariant
                ns == names@.map_values(|i: Identifier| i@),
                a < b <= names@.len(),
                forall|x: int, y: int| 0 <= x < y < names@.len() && x < a ==> spec_utf8(#[trigger] ns[x]) != spec_utf8(#[trigger] ns[y]),
                forall|y: int| a < y < b ==> spec_utf8(ns[a as int]) != spec_utf8(#[trigger] ns[y]),
            decreases names@.len() - b,
        {
            if same_text(names[a].as_str(), names[b].as_str()) {
                assert(ns[a as int] == names@[a as int]@);
                assert(ns[b as int] == names@[b as int]@);
                return false;
            }
            proof {
                assert(ns[a as int] == names@[a as int]@);
                assert(ns[b as int] == names@[b as int]@);
                if spec_utf8(ns[a as int]) == spec_utf8(ns[b as int]) {
                    crate::types::model::lemma_utf8_injective(ns[a as int], ns[b as int]);
                }
            }
            b = b + 1;
        }
        a = a + 1;
    }
    true
}

impl FunctionSignature {
    /// The signature as mathematics.
    pub open spec fn spec_fields(&self) -> SignatureFields {
        (self.spec_type_parameters().map_values(|i: Identifier| i@), spec_ports_model(self.spec_parameters()),
            spec_port_model(self.spec_result()))
    }

    /// Produces the canonical signature record, bounding every value first
    /// and checking that no variable is declared twice.
    pub fn to_value(&self, limits: &crate::cbor::limits::Limits) -> (res: Result<Value, MetadataError>)
        ensures
            !limits.spec_valid() ==> res matches Err(MetadataError::Codec(_)),
            limits.spec_valid() ==> match spec_mrun(*limits, (0, 0, 0), spec_sig_steps(*limits, self.spec_fields())) {
                Ok(_) => res matches Ok(v) && spec_sig_record(v, self.spec_fields()),
                Err(e) => res == Err::<Value, MetadataError>(e),
            },
    {
        let mut acc = match RecordAccounting::new(limits) {
            Ok(a) => a,
            Err(e) => return Err(MetadataError::Codec(e)),
        };
        let ghost l = *limits;
        let ghost f = self.spec_fields();
        proof { crate::types::model::lemma_ports_model(self.parameters@); }
        let ghost head = spec_sig_head(f.0.len() as int);
        let ghost mid = spec_sig_mid(f.1.len() as int);
        let ghost tail = spec_sig_tail(l, f);
        proof { assert(tail == spec_sig_tail(l, (f.0, Seq::empty(), f.2))); }
        let ghost ports = spec_sig_ports_steps(l, f.1);
        let ghost names_steps = spec_names_steps(f.0);
        proof {
            assert(spec_sig_steps(l, f) =~= head + (names_steps + (mid + (ports + tail))));
            lemma_mrun_append(l, acc.counters(), head, names_steps + (mid + (ports + tail)));
        }
        sig_head(&mut acc, self.type_parameters.len())?;
        proof { lemma_mrun_append(l, acc.counters(), names_steps, mid + (ports + tail)); }
        let names = sig_names(&mut acc, &self.type_parameters)?;
        proof { lemma_mrun_append(l, acc.counters(), mid, ports + tail); }
        sig_mid(&mut acc, self.parameters.len())?;
        proof { lemma_mrun_append(l, acc.counters(), ports, tail); }
        let params = sig_ports(&mut acc, &self.parameters, limits)?;
        let rv = sig_tail(&mut acc, &self.result, &self.type_parameters, limits)?;
        let mut entries: Vec<(String, Value)> = Vec::new();
        entries.push((String::from_str("returns"), rv));
        entries.push((String::from_str("parameters"), Value::Array(params)));
        entries.push((String::from_str("type_parameters"), Value::Array(names)));
        Ok(Value::Object(ValueMap { entries }))
    }
}

/// The header of a signature record with `n` declared variables.
pub open spec fn spec_sig_head(n: int) -> Seq<MetaStep> {
    seq![MetaStep::Charge(Charge::Collection { len: 3, depth: 0 }), spec_mtext("type_parameters"@, 1),
        MetaStep::Charge(Charge::Collection { len: n as usize, depth: 1 })]
}

/// The parameter field's name and header, with `n` parameters.
pub open spec fn spec_sig_mid(n: int) -> Seq<MetaStep> {
    seq![spec_mtext("parameters"@, 1), MetaStep::Charge(Charge::Collection { len: n as usize, depth: 1 })]
}

/// The result field, then the declaration check.
pub open spec fn spec_sig_tail(l: crate::cbor::limits::Limits, f: SignatureFields) -> Seq<MetaStep> {
    seq![MetaStep::Inner(spec_port_inner(l, f.2)), spec_mtext("returns"@, 1),
        MetaStep::Charges(spec_port_value_charges(f.2, 1)),
        MetaStep::Distinct(f.0, MetadataError::DuplicateTypeParameter)]
}

/// Charges a signature record's header.
fn sig_head(acc: &mut RecordAccounting, n: usize) -> (res: Result<(), MetadataError>)
    ensures
        final(acc).limits == old(acc).limits,
        match spec_mrun(*old(acc).limits, old(acc).counters(), spec_sig_head(n as int)) {
            Ok(c) => res is Ok && final(acc).counters() == c,
            Err(e) => res == Err::<(), MetadataError>(e),
        },
{
    let ghost l = *acc.limits;
    let ghost mut rem = spec_sig_head(n as int);
    proof { lemma_mrun_front(l, acc.counters(), rem); }
    mcharge(acc, Charge::Collection { len: 3, depth: 0 })?;
    proof { rem = rem.drop_first(); lemma_mrun_front(l, acc.counters(), rem); }
    mtext(acc, "type_parameters", 1)?;
    proof { rem = rem.drop_first(); lemma_mrun_front(l, acc.counters(), rem); }
    mcharge(acc, Charge::Collection { len: n, depth: 1 })?;
    proof { rem = rem.drop_first(); assert(rem.len() == 0); }
    Ok(())
}

/// Charges the parameter field's name and header.
fn sig_mid(acc: &mut RecordAccounting, n: usize) -> (res: Result<(), MetadataError>)
    ensures
        final(acc).limits == old(acc).limits,
        match spec_mrun(*old(acc).limits, old(acc).counters(), spec_sig_mid(n as int)) {
            Ok(c) => res is Ok && final(acc).counters() == c,
            Err(e) => res == Err::<(), MetadataError>(e),
        },
{
    let ghost l = *acc.limits;
    let ghost mut rem = spec_sig_mid(n as int);
    proof { lemma_mrun_front(l, acc.counters(), rem); }
    mtext(acc, "parameters", 1)?;
    proof { rem = rem.drop_first(); lemma_mrun_front(l, acc.counters(), rem); }
    mcharge(acc, Charge::Collection { len: n, depth: 1 })?;
    proof { rem = rem.drop_first(); assert(rem.len() == 0); }
    Ok(())
}

/// Builds the result port on its own, charges it as the `returns` field,
/// then checks the declarations.
fn sig_tail(acc: &mut RecordAccounting, result: &Port, ids: &Vec<Identifier>, limits: &crate::cbor::limits::Limits)
    -> (res: Result<Value, MetadataError>)
    requires
        old(acc).limits == limits,
        limits.spec_valid(),
    ensures
        final(acc).limits == old(acc).limits,
        match spec_mrun(*limits, old(acc).counters(), spec_sig_tail(*limits,
            (ids@.map_values(|i: Identifier| i@), Seq::empty(), spec_port_model(*result)))) {
            Ok(c) => res matches Ok(v) && final(acc).counters() == c && spec_is_port_record(v, spec_port_model(*result)),
            Err(e) => res == Err::<Value, MetadataError>(e),
        },
{
    let ghost l = *limits;
    let ghost m = spec_port_model(*result);
    let ghost mut rem = spec_sig_tail(l, (ids@.map_values(|i: Identifier| i@), Seq::empty(), m));
    proof { lemma_mrun_front(l, acc.counters(), rem); }
    let rv = port_inner(result, limits)?;
    proof { rem = rem.drop_first(); lemma_mrun_front(l, acc.counters(), rem); }
    mtext(acc, "returns", 1)?;
    proof {
        rem = rem.drop_first();
        lemma_mrun_front(l, acc.counters(), rem);
        lemma_port_charges_at(rv, m, 1);
    }
    mvalue(acc, &rv, 1)?;
    proof { rem = rem.drop_first(); lemma_mrun_front(l, acc.counters(), rem); }
    if !identifiers_distinct(ids) {
        return Err(MetadataError::DuplicateTypeParameter);
    }
    proof { rem = rem.drop_first(); assert(rem.len() == 0); }
    Ok(rv)
}

/// Charges and produces the declared variable names at depth two.
fn sig_names(acc: &mut RecordAccounting, ids: &Vec<Identifier>) -> (res: Result<Vec<Value>, MetadataError>)
    ensures
        final(acc).limits == old(acc).limits,
        match spec_mrun(*old(acc).limits, old(acc).counters(), spec_names_steps(ids@.map_values(|i: Identifier| i@))) {
            Ok(c) => res matches Ok(vs) && final(acc).counters() == c && vs@.len() == ids@.len()
                && forall|k: int| 0 <= k < ids@.len() ==> spec_text_is(#[trigger] vs@[k], ids@[k]@),
            Err(e) => res == Err::<Vec<Value>, MetadataError>(e),
        },
{
    let ghost l = *acc.limits;
    let ghost ns = ids@.map_values(|i: Identifier| i@);
    let ghost start = acc.counters();
    let ghost mut rem = spec_names_steps(ns);
    proof { assert(ns.subrange(0, ns.len() as int) =~= ns); }
    let mut names: Vec<Value> = Vec::new();
    let mut i: usize = 0;
    while i < ids.len()
        invariant
            acc.limits == old(acc).limits,
            l == *acc.limits,
            ns == ids@.map_values(|i: Identifier| i@),
            start == old(acc).counters(),
            i <= ns.len(),
            spec_mrun(l, start, spec_names_steps(ns)) == spec_mrun(l, acc.counters(), rem),
            rem == spec_names_steps(ns.subrange(i as int, ns.len() as int)),
            names@.len() == i,
            forall|k: int| 0 <= k < i ==> spec_text_is(#[trigger] names@[k], ids@[k]@),
        decreases ns.len() - i,
    {
        proof {
            let sub = ns.subrange(i as int, ns.len() as int);
            assert(sub[0] == ns[i as int]);
            assert(sub.drop_first() =~= ns.subrange(i + 1, ns.len() as int));
            lemma_mrun_front(l, acc.counters(), rem);
        }
        proof { assert(rem.drop_first() =~= spec_names_steps(ns.subrange(i + 1, ns.len() as int))); }
        let name = ids[i].as_str();
        mtext(acc, name, 2)?;
        names.push(Value::Text(String::from_str(name)));
        proof { rem = spec_names_steps(ns.subrange(i + 1, ns.len() as int)); }
        i = i + 1;
    }
    proof { assert(ns.subrange(ns.len() as int, ns.len() as int) =~= Seq::<Seq<char>>::empty()); }
    Ok(names)
}

/// Builds each parameter port on its own, then charges it whole at depth two.
fn sig_ports(acc: &mut RecordAccounting, ports: &Vec<Port>, limits: &crate::cbor::limits::Limits) -> (res: Result<Vec<Value>, MetadataError>)
    requires
        old(acc).limits == limits,
        limits.spec_valid(),
    ensures
        final(acc).limits == old(acc).limits,
        match spec_mrun(*limits, old(acc).counters(), spec_sig_ports_steps(*limits, spec_ports_model(ports@))) {
            Ok(c) => res matches Ok(vs) && final(acc).counters() == c && vs@.len() == ports@.len()
                && forall|k: int| 0 <= k < ports@.len() ==> spec_is_port_record(#[trigger] vs@[k], spec_ports_model(ports@)[k]),
            Err(e) => res == Err::<Vec<Value>, MetadataError>(e),
        },
{
    let ghost l = *limits;
    let ghost ms = spec_ports_model(ports@);
    let ghost start = acc.counters();
    let ghost mut rem = spec_sig_ports_steps(l, ms);
    proof {
        crate::types::model::lemma_ports_model(ports@);
        assert(ms.subrange(0, ms.len() as int) =~= ms);
    }
    let mut values: Vec<Value> = Vec::new();
    let mut j: usize = 0;
    while j < ports.len()
        invariant
            acc.limits == limits,
            old(acc).limits == limits,
            l == *limits,
            limits.spec_valid(),
            ms == spec_ports_model(ports@),
            ms.len() == ports@.len(),
            forall|k: int| 0 <= k < ms.len() ==> #[trigger] ms[k] == spec_port_model(ports@[k]),
            start == old(acc).counters(),
            j <= ms.len(),
            spec_mrun(l, start, spec_sig_ports_steps(l, ms)) == spec_mrun(l, acc.counters(), rem),
            rem == spec_sig_ports_steps(l, ms.subrange(j as int, ms.len() as int)),
            values@.len() == j,
            forall|k: int| 0 <= k < j ==> spec_is_port_record(#[trigger] values@[k], ms[k]),
        decreases ms.len() - j,
    {
        let ghost next = spec_sig_ports_steps(l, ms.subrange(j + 1, ms.len() as int));
        proof {
            let sub = ms.subrange(j as int, ms.len() as int);
            assert(sub[0] == ms[j as int]);
            assert(sub.drop_first() =~= ms.subrange(j + 1, ms.len() as int));
            lemma_mrun_front(l, acc.counters(), rem);
        }
        let pv = port_inner(&ports[j], limits)?;
        proof {
            assert(rem.drop_first() =~= seq![MetaStep::Charges(spec_port_value_charges(ms[j as int], 2))] + next);
            rem = rem.drop_first();
            lemma_mrun_front(l, acc.counters(), rem);
            lemma_port_charges_at(pv, ms[j as int], 2);
            assert(rem.drop_first() =~= next);
        }
        mvalue(acc, &pv, 2)?;
        values.push(pv);
        proof { rem = next; }
        j = j + 1;
    }
    proof { assert(ms.subrange(ms.len() as int, ms.len() as int) =~= Seq::<PortModel>::empty()); }
    Ok(values)
}

} // verus!

verus! {

/// Reading declared variable names: texts that are identifiers.
pub open spec fn spec_parse_names(items: Seq<Value>) -> Result<Seq<Seq<char>>, MetadataError>
    decreases items.len(),
{
    if items.len() == 0 {
        Ok(Seq::empty())
    } else {
        match spec_parse_names(items.drop_last()) {
            Err(e) => Err(e),
            Ok(ns) => match items.last() {
                Value::Text(t) => match crate::identifier::spec_identifier_error(spec_utf8(t@)) {
                    None => Ok(ns.push(t@)),
                    Some(e) => Err(MetadataError::Identifier(e)),
                },
                _ => Err(MetadataError::InvalidShape("type parameter")),
            },
        }
    }
}

/// Reading parameter port records in signature context.
pub open spec fn spec_parse_sig_ports(items: Seq<Value>, l: crate::cbor::limits::Limits) -> Result<Seq<PortModel>, MetadataError>
    decreases items.len(),
{
    if items.len() == 0 {
        Ok(Seq::empty())
    } else {
        match spec_parse_sig_ports(items.drop_last(), l) {
            Err(e) => Err(e),
            Ok(ps) => match crate::types::reading::spec_parse_port(items.last(), TypeContext::Signature, l, false) {
                Ok(p) => Ok(ps.push(p)),
                Err(e) => Err(MetadataError::Type(e)),
            },
        }
    }
}

/// The signature record's field names, in UTF-8 order.
pub open spec fn spec_sig_fields() -> Seq<&'static str> {
    seq!["parameters", "returns", "type_parameters"]
}

/// Reading a signature record: a closed map; declared names, then
/// parameters, then the result; repeated declarations are refused last.
pub open spec fn spec_parse_sig(v: Value, l: crate::cbor::limits::Limits) -> Result<SignatureFields, MetadataError> {
    match spec_closed(v, "function signature", spec_sig_fields()) {
        Err(e) => Err(e),
        Ok(e) => match crate::cbor::map::spec_find(e, "type_parameters"@) {
            Some(Value::Array(a)) => match spec_parse_names(a@) {
                Err(x) => Err(x),
                Ok(names) => match crate::cbor::map::spec_find(e, "parameters"@) {
                    Some(Value::Array(b)) => match spec_parse_sig_ports(b@, l) {
                        Err(x) => Err(x),
                        Ok(ps) => match crate::cbor::map::spec_find(e, "returns"@) {
                            Some(r) => match crate::types::reading::spec_parse_port(r, TypeContext::Signature, l, false) {
                                Err(x) => Err(MetadataError::Type(x)),
                                Ok(rm) => if spec_names_distinct(names) {
                                    Ok((names, ps, rm))
                                } else {
                                    Err(MetadataError::DuplicateTypeParameter)
                                },
                            },
                            None => Err(MetadataError::MissingField("returns")),
                        },
                    },
                    _ => Err(MetadataError::InvalidShape("parameters")),
                },
            },
            _ => Err(MetadataError::InvalidShape("type_parameters")),
        },
    }
}

/// A failed prefix of the names fails every longer prefix alike.
proof fn lemma_names_err_extends(items: Seq<Value>, i: int, j: int)
    requires
        0 <= i <= j <= items.len(),
        spec_parse_names(items.take(i)) is Err,
    ensures
        spec_parse_names(items.take(j)) == spec_parse_names(items.take(i)),
    decreases j - i,
{
    if i < j {
        lemma_names_err_extends(items, i, j - 1);
        assert(items.take(j).drop_last() =~= items.take(j - 1));
    }
}

/// A failed prefix of the ports fails every longer prefix alike.
proof fn lemma_sig_ports_err_extends(items: Seq<Value>, l: crate::cbor::limits::Limits, i: int, j: int)
    requires
        0 <= i <= j <= items.len(),
        spec_parse_sig_ports(items.take(i), l) is Err,
    ensures
        spec_parse_sig_ports(items.take(j), l) == spec_parse_sig_ports(items.take(i), l),
    decreases j - i,
{
    if i < j {
        lemma_sig_ports_err_extends(items, l, i, j - 1);
        assert(items.take(j).drop_last() =~= items.take(j - 1));
    }
}

/// Reads declared variable names.
fn parse_names(items: &Vec<Value>) -> (res: Result<Vec<Identifier>, MetadataError>)
    ensures
        match spec_parse_names(items@) {
            Ok(ns) => res matches Ok(r) && r@.map_values(|i: Identifier| i@) == ns,
            Err(e) => res == Err::<Vec<Identifier>, MetadataError>(e),
        },
{
    let mut out: Vec<Identifier> = Vec::new();
    let mut i: usize = 0;
    proof {
        assert(items@.take(0) =~= Seq::<Value>::empty());
        assert(out@.map_values(|i: Identifier| i@) =~= Seq::<Seq<char>>::empty());
    }
    while i < items.len()
        invariant
            i <= items@.len(),
            spec_parse_names(items@.take(i as int)) == Ok::<Seq<Seq<char>>, MetadataError>(out@.map_values(|i: Identifier| i@)),
        decreases items@.len() - i,
    {
        proof {
            assert(items@.take(i + 1).drop_last() =~= items@.take(i as int));
            assert(items@.take(i + 1).last() == items@[i as int]);
        }
        match &items[i] {
            Value::Text(t) => {
                proof { crate::identifier::lemma_identifier_error_iff(spec_utf8(t@)); }
                match Identifier::parse(t.as_str()) {
                    Ok(id) => {
                        let ghost before = out@;
                        out.push(id);
                        proof {
                            assert(out@.map_values(|i: Identifier| i@) =~= before.map_values(|i: Identifier| i@).push(t@));
                        }
                    },
                    Err(e) => {
                        proof {
                            lemma_names_err_extends(items@, i + 1, items@.len() as int);
                            assert(items@.take(items@.len() as int) =~= items@);
                        }
                        return Err(MetadataError::Identifier(e));
                    },
                }
            },
            _ => {
                proof {
                    lemma_names_err_extends(items@, i + 1, items@.len() as int);
                    assert(items@.take(items@.len() as int) =~= items@);
                }
                return Err(MetadataError::InvalidShape("type parameter"));
            },
        }
        i = i + 1;
    }
    proof { assert(items@.take(items@.len() as int) =~= items@); }
    Ok(out)
}

/// Reads parameter port records in signature context.
fn parse_sig_ports(items: &Vec<Value>, limits: &crate::cbor::limits::Limits) -> (res: Result<Vec<Port>, MetadataError>)
    requires
        limits.spec_valid(),
    ensures
        match spec_parse_sig_ports(items@, *limits) {
            Ok(ps) => res matches Ok(r) && spec_ports_model(r@) == ps,
            Err(e) => res == Err::<Vec<Port>, MetadataError>(e),
        },
{
    let mut out: Vec<Port> = Vec::new();
    let mut i: usize = 0;
    proof {
        assert(items@.take(0) =~= Seq::<Value>::empty());
        assert(spec_ports_model(out@) =~= Seq::<PortModel>::empty());
    }
    while i < items.len()
        invariant
            limits.spec_valid(),
            i <= items@.len(),
            spec_parse_sig_ports(items@.take(i as int), *limits) == Ok::<Seq<PortModel>, MetadataError>(spec_ports_model(out@)),
        decreases items@.len() - i,
    {
        proof {
            assert(items@.take(i + 1).drop_last() =~= items@.take(i as int));
            assert(items@.take(i + 1).last() == items@[i as int]);
        }
        match crate::types::reader::parse_port(&items[i], TypeContext::Signature, limits, false) {
            Ok(p) => {
                let ghost before = out@;
                out.push(p);
                proof {
                    assert(out@.drop_last() =~= before);
                }
            },
            Err(e) => {
                proof {
                    lemma_sig_ports_err_extends(items@, *limits, i + 1, items@.len() as int);
                    assert(items@.take(items@.len() as int) =~= items@);
                }
                return Err(MetadataError::Type(e));
            },
        }
        i = i + 1;
    }
    proof { assert(items@.take(items@.len() as int) =~= items@); }
    Ok(out)
}

impl FunctionSignature {
    /// Reads a signature record; each port is read as already bounded by the
    /// enclosing record.
    pub(crate) fn parse(v: &Value, limits: &crate::cbor::limits::Limits) -> (res: Result<FunctionSignature, MetadataError>)
        requires
            limits.spec_valid(),
        ensures
            match spec_parse_sig(*v, *limits) {
                Ok(f) => res matches Ok(r) && r.spec_fields() == f,
                Err(e) => res == Err::<FunctionSignature, MetadataError>(e),
            },
    {
        let fields: [&'static str; 3] = ["parameters", "returns", "type_parameters"];
        assert(fields@ == spec_sig_fields());
        let m = closed(v, "function signature", &fields)?;
        let names = match m.get("type_parameters") {
            Some(Value::Array(a)) => parse_names(a)?,
            _ => return Err(MetadataError::InvalidShape("type_parameters")),
        };
        let parameters = match m.get("parameters") {
            Some(Value::Array(b)) => parse_sig_ports(b, limits)?,
            _ => return Err(MetadataError::InvalidShape("parameters")),
        };
        let result = match m.get("returns") {
            Some(r) => match crate::types::reader::parse_port(r, TypeContext::Signature, limits, false) {
                Ok(p) => p,
                Err(e) => return Err(MetadataError::Type(e)),
            },
            None => return Err(MetadataError::MissingField("returns")),
        };
        if !identifiers_distinct(&names) {
            return Err(MetadataError::DuplicateTypeParameter);
        }
        Ok(FunctionSignature { type_parameters: names, parameters, result })
    }

    /// Bounds signature data and checks repeated declarations; declaration
    /// order is preserved.
    pub fn new(type_parameters: Vec<Identifier>, parameters: Vec<Port>, result: Port, limits: &crate::cbor::limits::Limits)
        -> (res: Result<FunctionSignature, MetadataError>)
        ensures
            !limits.spec_valid() ==> res matches Err(MetadataError::Codec(_)),
            limits.spec_valid() ==> match spec_mrun(*limits, (0, 0, 0), spec_sig_steps(*limits,
                (type_parameters@.map_values(|i: Identifier| i@), spec_ports_model(parameters@), spec_port_model(result)))) {
                Ok(_) => res matches Ok(r) && r.spec_type_parameters() == type_parameters@
                    && r.spec_parameters() == parameters@ && r.spec_result() == result,
                Err(e) => res == Err::<FunctionSignature, MetadataError>(e),
            },
    {
        let sig = FunctionSignature { type_parameters, parameters, result };
        sig.to_value(limits)?;
        Ok(sig)
    }

    /// Bounds an already decoded record under the codec limits, then reads it.
    pub fn from_value(v: &Value, limits: &crate::cbor::limits::Limits) -> (res: Result<FunctionSignature, MetadataError>)
        ensures
            !(limits.spec_valid() && crate::cbor::encode::spec_fits(*v, *limits)) ==> res matches Err(MetadataError::Codec(_)),
            limits.spec_valid() && crate::cbor::encode::spec_fits(*v, *limits) ==> match spec_parse_sig(*v, *limits) {
                Ok(f) => res matches Ok(r) && r.spec_fields() == f,
                Err(e) => res == Err::<FunctionSignature, MetadataError>(e),
            },
    {
        if let Err(e) = crate::cbor::encode::encode(v, limits) {
            return Err(MetadataError::Codec(e));
        }
        FunctionSignature::parse(v, limits)
    }

    /// Encodes exactly one canonical signature record.
    pub fn encode(&self, limits: &crate::cbor::limits::Limits) -> (res: Result<Vec<u8>, MetadataError>)
        ensures
            !limits.spec_valid() ==> res matches Err(MetadataError::Codec(_)),
            limits.spec_valid() ==> (spec_mrun(*limits, (0, 0, 0), spec_sig_steps(*limits, self.spec_fields()))
                matches Err(e) ==> res == Err::<Vec<u8>, MetadataError>(e)),
            res matches Ok(b) ==> exists|v: Value| #[trigger] spec_sig_record(v, self.spec_fields())
                && b@ == crate::cbor::value::spec_encode(v),
            limits.spec_valid() ==> match spec_mrun(*limits, (0, 0, 0), spec_sig_steps(*limits, self.spec_fields())) {
                Ok(_) => exists|v: crate::cbor::value::Value| (crate::cbor::encode::spec_fits(v, *limits) <==> res is Ok) && (res matches Ok(b) ==> b@ == crate::cbor::value::spec_encode(v)) && spec_sig_record(v, self.spec_fields()),
                Err(e) => res == Err::<Vec<u8>, MetadataError>(e),
            },
    {
        let v = self.to_value(limits)?;
        match crate::cbor::encode::encode(&v, limits) {
            Ok(b) => Ok(b),
            Err(e) => Err(MetadataError::Codec(e)),
        }
    }

    /// Decodes exactly one canonical signature record, rejecting trailing data.
    pub fn decode(bytes: &[u8], limits: &crate::cbor::limits::Limits) -> (res: Result<FunctionSignature, MetadataError>)
        ensures
            !limits.spec_valid() ==> res matches Err(MetadataError::Codec(_)),
            res matches Ok(r) ==> exists|w: Value| #[trigger] crate::cbor::value::spec_encode(w) == bytes@
                && spec_parse_sig(w, *limits) == Ok::<SignatureFields, MetadataError>(r.spec_fields()),
            limits.spec_valid() && (exists|x: crate::cbor::value::Value| #[trigger] crate::cbor::value::spec_encode(x) == bytes@
                && crate::cbor::value::spec_wf(x) && crate::cbor::value::spec_height(x) <= limits.max_depth
                && bytes@.len() <= limits.max_document_bytes) ==> exists|w: crate::cbor::value::Value|
                #[trigger] crate::cbor::value::spec_encode(w) == bytes@ && crate::cbor::value::spec_wf(w) && (match spec_parse_sig(w, *limits) {
                Ok(f) => res matches Ok(r) && r.spec_fields() == f,
                Err(e) => res == Err::<FunctionSignature, MetadataError>(e),
            }),
    {
        let v = match crate::cbor::decode::decode(bytes, limits) {
            Ok(v) => v,
            Err(e) => return Err(MetadataError::Codec(e)),
        };
        proof { assert(crate::cbor::value::spec_encode(v) == bytes@ && crate::cbor::value::spec_wf(v)); }
        let r = FunctionSignature::parse(&v, limits)?;
        assert(crate::cbor::value::spec_encode(v) == bytes@);
        Ok(r)
    }
}

} // verus!

verus! {

/// Two canonical records of one signature denote the same data.
proof fn lemma_sig_record_same(v1: Value, v2: Value, f: SignatureFields)
    requires
        spec_sig_record(v1, f),
        spec_sig_record(v2, f),
    ensures
        crate::cbor::value::spec_same(v1, v2),
{
    reveal(spec_is_port_record);
    let e1 = v1->Object_0.entries@;
    let e2 = v2->Object_0.entries@;
    crate::types::model::lemma_port_record_same(e1[0].1, e2[0].1, f.2);
    let p1 = e1[1].1->Array_0@;
    let p2 = e2[1].1->Array_0@;
    assert forall|i: int| 0 <= i < p1.len() implies crate::cbor::value::spec_same(#[trigger] p1[i], p2[i]) by {
        crate::types::model::lemma_port_record_same(p1[i], p2[i], f.1[i]);
    }
    crate::types::model::lemma_same_list_pointwise(p1, p2);
    let n1 = e1[2].1->Array_0@;
    let n2 = e2[2].1->Array_0@;
    assert forall|i: int| 0 <= i < n1.len() implies crate::cbor::value::spec_same(#[trigger] n1[i], n2[i]) by {
        assert(spec_text_is(n1[i], f.0[i]));
        assert(spec_text_is(n2[i], f.0[i]));
    }
    crate::types::model::lemma_same_list_pointwise(n1, n2);
    crate::types::model::lemma_same_entries_pointwise(e1, e2);
}

/// What charging the canonical record of signature `f` at `depth` charges.
#[verifier::opaque]
pub open spec fn spec_sig_value_charges(f: SignatureFields, depth: int) -> Seq<Charge> {
    crate::record_accounting::spec_value_charges(choose|v: Value| spec_sig_record(v, f), depth)
}

/// Any canonical record of a signature is charged as [`spec_sig_value_charges`] says.
proof fn lemma_sig_charges_at(v: Value, f: SignatureFields, depth: int)
    requires
        spec_sig_record(v, f),
    ensures
        crate::record_accounting::spec_value_charges(v, depth) == spec_sig_value_charges(f, depth),
{
    reveal(spec_sig_value_charges);
    let w = choose|w: Value| spec_sig_record(w, f);
    lemma_sig_record_same(v, w, f);
    crate::record_accounting::lemma_same_charges(v, w, depth);
}

/// Building a signature's record on its own accounting.
#[verifier::opaque]
pub open spec fn spec_sig_inner(l: crate::cbor::limits::Limits, f: SignatureFields) -> Result<(), MetadataError> {
    match spec_mrun(l, (0, 0, 0), spec_sig_steps(l, f)) {
        Ok(_) => Ok(()),
        Err(e) => Err(e),
    }
}

/// A library as mathematics: registry ID, version, implementation digest
/// bytes, and named signatures.
pub type LibraryFields = (Seq<char>, Seq<char>, Seq<u8>, Seq<(Seq<char>, SignatureFields)>);

/// The steps of the named signatures: each name at depth two, then the
/// signature built on its own and charged whole at depth two.
pub open spec fn spec_lib_fns_steps(l: crate::cbor::limits::Limits, fs: Seq<(Seq<char>, SignatureFields)>) -> Seq<MetaStep>
    decreases fs.len(),
{
    if fs.len() == 0 {
        Seq::empty()
    } else {
        seq![spec_mtext(fs[0].0, 2), MetaStep::Inner(spec_sig_inner(l, fs[0].1)),
            MetaStep::Charges(spec_sig_value_charges(fs[0].1, 2))]
            + spec_lib_fns_steps(l, fs.drop_first())
    }
}

/// The function names.
pub open spec fn spec_fn_names(fs: Seq<(Seq<char>, SignatureFields)>) -> Seq<Seq<char>> {
    fs.map_values(|x: (Seq<char>, SignatureFields)| x.0)
}

/// The header and text fields of a library record with `n` functions.
pub open spec fn spec_lib_head(id: Seq<char>, version: Seq<char>, digest: Seq<u8>, n: int) -> Seq<MetaStep> {
    seq![MetaStep::Charge(Charge::Collection { len: 4, depth: 0 }),
        spec_mtext("library_id"@, 1), spec_mtext(id, 1),
        spec_mtext("version"@, 1), spec_mtext(version, 1),
        spec_mtext("implementation_digest"@, 1), spec_mtext(crate::digest::spec_digest_text(digest), 1),
        spec_mtext("functions"@, 1), MetaStep::Charge(Charge::Collection { len: n as usize, depth: 1 })]
}

/// Everything building a library record does, in order: its header and text
/// fields, each named signature, then the name check of the function map.
pub open spec fn spec_lib_steps(l: crate::cbor::limits::Limits, f: LibraryFields) -> Seq<MetaStep> {
    spec_lib_head(f.0, f.1, f.2, f.3.len() as int) + (spec_lib_fns_steps(l, f.3)
        + seq![MetaStep::Distinct(spec_fn_names(f.3), MetadataError::Codec(
            crate::cbor::error::spec_plain_error(crate::cbor::error::ErrorKind::DuplicateMapKey)))])
}

/// Entry `i` of `built` is function `i`: its name and its signature record.
pub open spec fn spec_fns_records(built: Seq<(String, Value)>, fs: Seq<(Seq<char>, SignatureFields)>) -> bool {
    built.len() == fs.len() && forall|i: int| 0 <= i < fs.len()
        ==> (#[trigger] built[i]).0@ == fs[i].0 && spec_sig_record(built[i].1, fs[i].1)
}

/// The canonical library record: `version`, `functions`, `library_id`, then
/// `implementation_digest`; the function map in canonical key order.
pub open spec fn spec_lib_record(v: Value, f: LibraryFields) -> bool {
    match v {
        Value::Object(m) => {
            &&& m.entries@.len() == 4
            &&& spec_text_entry(m.entries@[0], "version"@, f.1)
            &&& m.entries@[1].0@ == "functions"@
            &&& (m.entries@[1].1 matches Value::Object(fm) && crate::cbor::value::spec_keys_sorted(fm.entries@)
                && exists|built: Seq<(String, Value)>| #[trigger] built.to_multiset() == fm.entries@.to_multiset()
                    && spec_fns_records(built, f.3))
            &&& spec_text_entry(m.entries@[2], "library_id"@, f.0)
            &&& spec_text_entry(m.entries@[3], "implementation_digest"@, crate::digest::spec_digest_text(f.2))
        },
        _ => false,
    }
}

/// The model of named signatures.
pub open spec fn spec_fns_model(fs: Seq<(Identifier, FunctionSignature)>) -> Seq<(Seq<char>, SignatureFields)> {
    fs.map_values(|x: (Identifier, FunctionSignature)| (x.0@, x.1.spec_fields()))
}

/// Builds a signature's record on its own accounting.
fn sig_inner(sig: &FunctionSignature, limits: &crate::cbor::limits::Limits) -> (res: Result<Value, MetadataError>)
    requires
        limits.spec_valid(),
    ensures
        match spec_sig_inner(*limits, sig.spec_fields()) {
            Ok(()) => res matches Ok(v) && spec_sig_record(v, sig.spec_fields()),
            Err(e) => res == Err::<Value, MetadataError>(e),
        },
{
    reveal(spec_sig_inner);
    sig.to_value(limits)
}

/// Charges the header and text fields of a library record.
fn lib_head(acc: &mut RecordAccounting, id: &str, version: &str, digest: &Digest, n: usize) -> (res: Result<(), MetadataError>)
    ensures
        final(acc).limits == old(acc).limits,
        match spec_mrun(*old(acc).limits, old(acc).counters(), spec_lib_head(id@, version@, digest@, n as int)) {
            Ok(c) => res is Ok && final(acc).counters() == c,
            Err(e) => res == Err::<(), MetadataError>(e),
        },
{
    let ghost l = *acc.limits;
    let text = digest.to_text();
    let ghost mut rem = spec_lib_head(id@, version@, digest@, n as int);
    proof { lemma_mrun_front(l, acc.counters(), rem); }
    mcharge(acc, Charge::Collection { len: 4, depth: 0 })?;
    proof { rem = rem.drop_first(); lemma_mrun_front(l, acc.counters(), rem); }
    mtext(acc, "library_id", 1)?;
    proof { rem = rem.drop_first(); lemma_mrun_front(l, acc.counters(), rem); }
    mtext(acc, id, 1)?;
    proof { rem = rem.drop_first(); lemma_mrun_front(l, acc.counters(), rem); }
    mtext(acc, "version", 1)?;
    proof { rem = rem.drop_first(); lemma_mrun_front(l, acc.counters(), rem); }
    mtext(acc, version, 1)?;
    proof { rem = rem.drop_first(); lemma_mrun_front(l, acc.counters(), rem); }
    mtext(acc, "implementation_digest", 1)?;
    proof { rem = rem.drop_first(); lemma_mrun_front(l, acc.counters(), rem); }
    mtext(acc, text.as_str(), 1)?;
    proof { rem = rem.drop_first(); lemma_mrun_front(l, acc.counters(), rem); }
    mtext(acc, "functions", 1)?;
    proof { rem = rem.drop_first(); lemma_mrun_front(l, acc.counters(), rem); }
    mcharge(acc, Charge::Collection { len: n, depth: 1 })?;
    proof { rem = rem.drop_first(); assert(rem.len() == 0); }
    Ok(())
}

} // verus!

verus! {

/// Function names are distinct exactly when the built entries' keys are.
proof fn lemma_fn_keys_distinct(built: Seq<(String, Value)>, fs: Seq<(Seq<char>, SignatureFields)>)
    requires
        spec_fns_records(built, fs),
    ensures
        crate::cbor::map::spec_keys_distinct(built) <==> spec_names_distinct(spec_fn_names(fs)),
{
    let names = spec_fn_names(fs);
    assert forall|i: int| 0 <= i < built.len() implies #[trigger] built[i].0@ == names[i] by {
        assert(built[i].0@ == fs[i].0);
    }
    if crate::cbor::map::spec_keys_distinct(built) {
        assert forall|i: int, j: int| 0 <= i < j < names.len() implies spec_utf8(#[trigger] names[i]) != spec_utf8(#[trigger] names[j]) by {
            assert(built[i].0@ == names[i]);
            assert(built[j].0@ == names[j]);
        }
    }
    if spec_names_distinct(names) {
        assert forall|i: int, j: int| 0 <= i < j < built.len() implies spec_utf8(#[trigger] built[i].0@) != spec_utf8(#[trigger] built[j].0@) by {
            assert(built[i].0@ == names[i]);
            assert(built[j].0@ == names[j]);
        }
    }
}

/// Charges and produces each named signature: its name, then its record
/// built on its own and charged whole at depth two.
fn lib_fns(acc: &mut RecordAccounting, fns: &Vec<(Identifier, FunctionSignature)>, limits: &crate::cbor::limits::Limits)
    -> (res: Result<Vec<(String, Value)>, MetadataError>)
    requires
        old(acc).limits == limits,
        limits.spec_valid(),
    ensures
        final(acc).limits == old(acc).limits,
        match spec_mrun(*limits, old(acc).counters(), spec_lib_fns_steps(*limits, spec_fns_model(fns@))) {
            Ok(c) => res matches Ok(built) && final(acc).counters() == c && spec_fns_records(built@, spec_fns_model(fns@)),
            Err(e) => res == Err::<Vec<(String, Value)>, MetadataError>(e),
        },
{
    let ghost l = *limits;
    let ghost ms = spec_fns_model(fns@);
    let ghost start = acc.counters();
    let ghost mut rem = spec_lib_fns_steps(l, ms);
    proof { assert(ms.subrange(0, ms.len() as int) =~= ms); }
    let mut built: Vec<(String, Value)> = Vec::new();
    let mut j: usize = 0;
    while j < fns.len()
        invariant
            acc.limits == limits,
            old(acc).limits == limits,
            l == *limits,
            limits.spec_valid(),
            ms == spec_fns_model(fns@),
            start == old(acc).counters(),
            j <= ms.len(),
            spec_mrun(l, start, spec_lib_fns_steps(l, ms)) == spec_mrun(l, acc.counters(), rem),
            rem == spec_lib_fns_steps(l, ms.subrange(j as int, ms.len() as int)),
            built@.len() == j,
            forall|k: int| 0 <= k < j ==> (#[trigger] built@[k]).0@ == ms[k].0 && spec_sig_record(built@[k].1, ms[k].1),
        decreases ms.len() - j,
    {
        let ghost next = spec_lib_fns_steps(l, ms.subrange(j + 1, ms.len() as int));
        let ghost mj = ms[j as int];
        proof {
            let sub = ms.subrange(j as int, ms.len() as int);
            assert(sub[0] == mj);
            assert(sub.drop_first() =~= ms.subrange(j + 1, ms.len() as int));
            assert(mj == (fns@[j as int].0@, fns@[j as int].1.spec_fields()));
            lemma_mrun_front(l, acc.counters(), rem);
            assert(rem.drop_first() =~= seq![MetaStep::Inner(spec_sig_inner(l, mj.1)),
                MetaStep::Charges(spec_sig_value_charges(mj.1, 2))] + next);
        }
        let name = fns[j].0.as_str();
        mtext(acc, name, 2)?;
        proof {
            rem = rem.drop_first();
            lemma_mrun_front(l, acc.counters(), rem);
            assert(rem.drop_first() =~= seq![MetaStep::Charges(spec_sig_value_charges(mj.1, 2))] + next);
        }
        let sv = sig_inner(&fns[j].1, limits)?;
        proof {
            rem = rem.drop_first();
            lemma_mrun_front(l, acc.counters(), rem);
            lemma_sig_charges_at(sv, mj.1, 2);
            assert(rem.drop_first() =~= next);
        }
        mvalue(acc, &sv, 2)?;
        built.push((String::from_str(name), sv));
        proof { rem = next; }
        j = j + 1;
    }
    proof { assert(ms.subrange(ms.len() as int, ms.len() as int) =~= Seq::<(Seq<char>, SignatureFields)>::empty()); }
    Ok(built)
}

/// Produces the canonical record of a library's parts, bounding every value
/// first.
fn library_value(id: &String, version: &String, digest: &Digest, fns: &Vec<(Identifier, FunctionSignature)>,
    limits: &crate::cbor::limits::Limits) -> (res: Result<Value, MetadataError>)
    ensures
        !limits.spec_valid() ==> res matches Err(MetadataError::Codec(_)),
        limits.spec_valid() ==> match spec_mrun(*limits, (0, 0, 0), spec_lib_steps(*limits, (id@, version@, digest@, spec_fns_model(fns@)))) {
            Ok(_) => res matches Ok(v) && spec_lib_record(v, (id@, version@, digest@, spec_fns_model(fns@))),
            Err(e) => res == Err::<Value, MetadataError>(e),
        },
        res is Ok ==> spec_names_distinct(spec_fn_names(spec_fns_model(fns@))),
{
    let mut acc = match RecordAccounting::new(limits) {
        Ok(a) => a,
        Err(e) => return Err(MetadataError::Codec(e)),
    };
    let ghost l = *limits;
    let ghost ms = spec_fns_model(fns@);
    let ghost head = spec_lib_head(id@, version@, digest@, ms.len() as int);
    let ghost body = spec_lib_fns_steps(l, ms);
    let ghost last = seq![MetaStep::Distinct(spec_fn_names(ms), MetadataError::Codec(
        crate::cbor::error::spec_plain_error(crate::cbor::error::ErrorKind::DuplicateMapKey)))];
    proof {
        assert(spec_lib_steps(l, (id@, version@, digest@, ms)) == head + (body + last));
        lemma_mrun_append(l, acc.counters(), head, body + last);
    }
    lib_head(&mut acc, id.as_str(), version.as_str(), digest, fns.len())?;
    proof { lemma_mrun_append(l, acc.counters(), body, last); }
    let built = lib_fns(&mut acc, fns, limits)?;
    proof {
        lemma_mrun_front(l, acc.counters(), last);
        lemma_fn_keys_distinct(built@, ms);
    }
    let ghost built_view = built@;
    let fm = match ValueMap::try_from_entries(built) {
        Ok(m) => m,
        Err(e) => return Err(MetadataError::Codec(e)),
    };
    proof { assert(built_view.to_multiset() == fm.entries@.to_multiset()); }
    let mut entries: Vec<(String, Value)> = Vec::new();
    entries.push(text_entry("version", version.as_str()));
    entries.push((String::from_str("functions"), Value::Object(fm)));
    entries.push(text_entry("library_id", id.as_str()));
    let text = digest.to_text();
    entries.push(text_entry("implementation_digest", text.as_str()));
    Ok(Value::Object(ValueMap { entries }))
}

impl Library {
    /// The library as mathematics.
    pub open spec fn spec_fields(&self) -> LibraryFields {
        (self.spec_library_id(), self.spec_version(), self.spec_implementation_digest()@, spec_fns_model(self.spec_functions()))
    }

    /// Produces the canonical library record, bounding every value first.
    pub fn to_value(&self, limits: &crate::cbor::limits::Limits) -> (res: Result<Value, MetadataError>)
        ensures
            !limits.spec_valid() ==> res matches Err(MetadataError::Codec(_)),
            limits.spec_valid() ==> match spec_mrun(*limits, (0, 0, 0), spec_lib_steps(*limits, self.spec_fields())) {
                Ok(_) => res matches Ok(v) && spec_lib_record(v, self.spec_fields()),
                Err(e) => res == Err::<Value, MetadataError>(e),
            },
    {
        library_value(&self.library_id, &self.version, &self.implementation_digest, &self.functions, limits)
    }
}

} // verus!

verus! {

/// Named items strictly ordered by the UTF-8 bytes of their names.
pub open spec fn spec_named_sorted<T>(s: Seq<(Seq<char>, T)>) -> bool {
    forall|i: int, j: int| 0 <= i < j < s.len() ==> crate::cbor::value::spec_lex_lt(spec_utf8(#[trigger] s[i].0), spec_utf8(#[trigger] s[j].0))
}

/// The named signatures in name order.
pub open spec fn spec_sort_fns(fs: Seq<(Seq<char>, SignatureFields)>) -> Seq<(Seq<char>, SignatureFields)> {
    choose|r: Seq<(Seq<char>, SignatureFields)>| spec_named_sorted(r) && r.to_multiset() == fs.to_multiset()
}

/// Two name-sorted sequences holding the same items are equal.
pub proof fn lemma_named_sorted_unique<T>(s: Seq<(Seq<char>, T)>, t: Seq<(Seq<char>, T)>)
    requires
        spec_named_sorted(s),
        spec_named_sorted(t),
        s.to_multiset() == t.to_multiset(),
    ensures
        s == t,
    decreases s.len(),
{
    s.to_multiset_ensures();
    t.to_multiset_ensures();
    if s.len() == 0 {
        assert(t.len() == 0);
        assert(s =~= t);
    } else {
        assert(s.contains(s[0]));
        assert(s.to_multiset().count(s[0]) > 0);
        assert(t.contains(s[0]));
        assert(t.contains(t[0]));
        assert(t.to_multiset().count(t[0]) > 0);
        assert(s.contains(t[0]));
        let k = choose|k: int| 0 <= k < t.len() && t[k] == s[0];
        let m = choose|m: int| 0 <= m < s.len() && s[m] == t[0];
        if k > 0 && m > 0 {
            crate::cbor::keys::lemma_lex_transitive(spec_utf8(t[0].0), spec_utf8(t[k].0), spec_utf8(s[m].0));
            crate::cbor::keys::lemma_lex_irreflexive(spec_utf8(t[0].0));
        }
        assert(s[0] == t[0]);
        vstd::seq_lib::to_multiset_remove(s, 0);
        vstd::seq_lib::to_multiset_remove(t, 0);
        assert(s.remove(0) =~= s.drop_first());
        assert(t.remove(0) =~= t.drop_first());
        lemma_named_sorted_unique(s.drop_first(), t.drop_first());
        assert forall|i: int| 0 <= i < s.len() implies s[i] == t[i] by {
            if i > 0 {
                assert(s[i] == s.drop_first()[i - 1]);
                assert(t[i] == t.drop_first()[i - 1]);
            }
        }
        assert(s =~= t);
    }
}

/// Orders named signatures by the UTF-8 bytes of their names; the names must
/// be distinct.
#[verifier::rlimit(60)]
fn sort_fns(entries: Vec<(Identifier, FunctionSignature)>) -> (res: Vec<(Identifier, FunctionSignature)>)
    requires
        spec_names_distinct(spec_fn_names(spec_fns_model(entries@))),
    ensures
        spec_functions_sorted(res@),
        spec_fns_model(res@) == spec_sort_fns(spec_fns_model(entries@)),
        spec_named_sorted(spec_fns_model(res@)),
        spec_fns_model(res@).to_multiset() == spec_fns_model(entries@).to_multiset(),
{
    let ghost unsorted = spec_fns_model(entries@);
    let mut input = entries;
    let mut output: Vec<(Identifier, FunctionSignature)> = Vec::new();
    proof {
        spec_fns_model(output@).to_multiset_ensures();
        assert(spec_fns_model(output@).to_multiset() =~= vstd::multiset::Multiset::<(Seq<char>, SignatureFields)>::empty());
        let names = spec_fn_names(unsorted);
        assert forall|a: int, c: int| 0 <= a < c < input@.len() implies spec_utf8((#[trigger] input@[a]).0@)
            != spec_utf8((#[trigger] input@[c]).0@) by {
            assert(names[a] == input@[a].0@);
            assert(names[c] == input@[c].0@);
        }
    }
    while input.len() > 0
        invariant
            unsorted == spec_fns_model(entries@),
            spec_functions_sorted(output@),
            forall|a: int, c: int| 0 <= a < output@.len() && 0 <= c < input@.len() ==> crate::cbor::value::spec_lex_lt(
                spec_utf8((#[trigger] output@[a]).0@), spec_utf8((#[trigger] input@[c]).0@)),
            spec_fns_model(output@).to_multiset().add(spec_fns_model(input@).to_multiset()) == unsorted.to_multiset(),
            forall|a: int, c: int| 0 <= a < c < input@.len() ==> spec_utf8((#[trigger] input@[a]).0@)
                != spec_utf8((#[trigger] input@[c]).0@),
        decreases input@.len(),
    {
        let mut min: usize = 0;
        let mut j: usize = 1;
        while j < input.len()
            invariant
                0 <= min < j <= input@.len(),
                forall|a: int, c: int| 0 <= a < c < input@.len() ==> spec_utf8((#[trigger] input@[a]).0@)
                    != spec_utf8((#[trigger] input@[c]).0@),
                forall|k: int| 0 <= k < j && k != min ==> crate::cbor::value::spec_lex_lt(
                    spec_utf8(input@[min as int].0@), spec_utf8((#[trigger] input@[k]).0@)),
            decreases input@.len() - j,
        {
            let smaller = crate::types::reader::bytes_lt(input[j].0.as_str().as_bytes(), input[min].0.as_str().as_bytes());
            proof {
                crate::cbor::keys::lemma_lex_total(spec_utf8(input@[j as int].0@), spec_utf8(input@[min as int].0@));
            }
            if smaller {
                proof {
                    assert forall|k: int| 0 <= k < j + 1 && k != j implies crate::cbor::value::spec_lex_lt(
                        spec_utf8(input@[j as int].0@), spec_utf8((#[trigger] input@[k]).0@)) by {
                        if k != min {
                            crate::cbor::keys::lemma_lex_transitive(spec_utf8(input@[j as int].0@),
                                spec_utf8(input@[min as int].0@), spec_utf8(input@[k].0@));
                        }
                    }
                }
                min = j;
            }
            j = j + 1;
        }
        let ghost before_in = input@;
        let ghost before_out = output@;
        let entry = input.remove(min);
        output.push(entry);
        proof {
            let mi = spec_fns_model(before_in);
            let mo = spec_fns_model(before_out);
            assert(spec_fns_model(input@) =~= mi.remove(min as int));
            assert(spec_fns_model(output@) =~= mo.push(mi[min as int]));
            vstd::seq_lib::to_multiset_remove(mi, min as int);
            vstd::seq_lib::to_multiset_build(mo, mi[min as int]);
            mi.to_multiset_ensures();
            assert(spec_fns_model(output@).to_multiset().add(spec_fns_model(input@).to_multiset())
                =~= unsorted.to_multiset());
            assert forall|a: int, c: int| 0 <= a < c < output@.len() implies spec_bytes_lt(
                spec_utf8((#[trigger] output@[a]).0@), spec_utf8((#[trigger] output@[c]).0@)) by {
                if c == output@.len() - 1 {
                    assert(output@[c] == before_in[min as int]);
                    assert(output@[a] == before_out[a]);
                } else {
                    assert(output@[a] == before_out[a]);
                    assert(output@[c] == before_out[c]);
                }
            }
            assert forall|a: int, c: int| 0 <= a < output@.len() && 0 <= c < input@.len() implies crate::cbor::value::spec_lex_lt(
                spec_utf8((#[trigger] output@[a]).0@), spec_utf8((#[trigger] input@[c]).0@)) by {
                let k = if c < min { c } else { c + 1 };
                assert(input@[c] == before_in[k]);
                if a < before_out.len() {
                    assert(output@[a] == before_out[a]);
                } else {
                    assert(output@[a] == before_in[min as int]);
                }
            }
            assert forall|a: int, c: int| 0 <= a < c < input@.len() implies spec_utf8((#[trigger] input@[a]).0@)
                != spec_utf8((#[trigger] input@[c]).0@) by {
                let ka = if a < min { a } else { a + 1 };
                let kc = if c < min { c } else { c + 1 };
                assert(input@[a] == before_in[ka]);
                assert(input@[c] == before_in[kc]);
            }
        }
    }
    proof {
        let mo = spec_fns_model(output@);
        spec_fns_model(input@).to_multiset_ensures();
        assert(spec_fns_model(input@).to_multiset() =~= vstd::multiset::Multiset::<(Seq<char>, SignatureFields)>::empty());
        assert(mo.to_multiset() =~= unsorted.to_multiset());
        assert forall|i: int, j: int| 0 <= i < j < mo.len() implies crate::cbor::value::spec_lex_lt(
            spec_utf8(#[trigger] mo[i].0), spec_utf8(#[trigger] mo[j].0)) by {
            assert(mo[i].0 == output@[i].0@);
            assert(mo[j].0 == output@[j].0@);
        }
        lemma_named_sorted_unique(mo, spec_sort_fns(unsorted));
    }
    output
}

} // verus!

verus! {

/// The library record's field names, in UTF-8 order.
pub open spec fn spec_lib_fields() -> Seq<&'static str> {
    seq!["functions", "implementation_digest", "library_id", "version"]
}

/// Reading the function map's entries in stored order: identifier names and
/// signature records.
pub open spec fn spec_parse_fns(e: Seq<(String, Value)>, l: crate::cbor::limits::Limits)
    -> Result<Seq<(Seq<char>, SignatureFields)>, MetadataError>
    decreases e.len(),
{
    if e.len() == 0 {
        Ok(Seq::empty())
    } else {
        match spec_parse_fns(e.drop_last(), l) {
            Err(x) => Err(x),
            Ok(fs) => match crate::identifier::spec_identifier_error(spec_utf8(e.last().0@)) {
                Some(x) => Err(MetadataError::Identifier(x)),
                None => match spec_parse_sig(e.last().1, l) {
                    Err(x) => Err(x),
                    Ok(sf) => Ok(fs.push((e.last().0@, sf))),
                },
            },
        }
    }
}

/// Reading a library record: a closed map; its functions first, put in name
/// order, then its text fields and digest.
pub open spec fn spec_parse_lib(v: Value, l: crate::cbor::limits::Limits) -> Result<LibraryFields, MetadataError> {
    match spec_closed(v, "library", spec_lib_fields()) {
        Err(e) => Err(e),
        Ok(e) => match crate::cbor::map::spec_find(e, "functions"@) {
            Some(Value::Object(fm)) => match spec_parse_fns(fm.entries@, l) {
                Err(x) => Err(x),
                Ok(fs) => if !spec_names_distinct(spec_fn_names(fs)) {
                    Err(MetadataError::Codec(crate::cbor::error::spec_plain_error(crate::cbor::error::ErrorKind::DuplicateMapKey)))
                } else {
                    match spec_text_field(e, "library_id") {
                        Err(x) => Err(x),
                        Ok(id) => match spec_text_field(e, "version") {
                            Err(x) => Err(x),
                            Ok(ver) => match spec_digest_field(e, "implementation_digest") {
                                Err(x) => Err(x),
                                Ok(d) => Ok((id, ver, d, spec_sort_fns(fs))),
                            },
                        },
                    }
                },
            },
            _ => Err(MetadataError::InvalidShape("functions")),
        },
    }
}

/// A failed prefix of the function entries fails every longer prefix alike.
proof fn lemma_fns_err_extends(e: Seq<(String, Value)>, l: crate::cbor::limits::Limits, i: int, j: int)
    requires
        0 <= i <= j <= e.len(),
        spec_parse_fns(e.take(i), l) is Err,
    ensures
        spec_parse_fns(e.take(j), l) == spec_parse_fns(e.take(i), l),
    decreases j - i,
{
    if i < j {
        lemma_fns_err_extends(e, l, i, j - 1);
        assert(e.take(j).drop_last() =~= e.take(j - 1));
    }
}

/// Reads the function map's entries in stored order.
fn parse_fns(m: &ValueMap, limits: &crate::cbor::limits::Limits) -> (res: Result<Vec<(Identifier, FunctionSignature)>, MetadataError>)
    requires
        limits.spec_valid(),
    ensures
        match spec_parse_fns(m.entries@, *limits) {
            Ok(fs) => res matches Ok(r) && spec_fns_model(r@) == fs,
            Err(e) => res == Err::<Vec<(Identifier, FunctionSignature)>, MetadataError>(e),
        },
{
    let ghost e = m.entries@;
    let mut out: Vec<(Identifier, FunctionSignature)> = Vec::new();
    let mut i: usize = 0;
    proof {
        assert(e.take(0) =~= Seq::<(String, Value)>::empty());
        assert(spec_fns_model(out@) =~= Seq::<(Seq<char>, SignatureFields)>::empty());
    }
    while i < m.entries.len()
        invariant
            e == m.entries@,
            limits.spec_valid(),
            i <= e.len(),
            spec_parse_fns(e.take(i as int), *limits) == Ok::<Seq<(Seq<char>, SignatureFields)>, MetadataError>(spec_fns_model(out@)),
        decreases e.len() - i,
    {
        let (k, v) = &m.entries[i];
        proof {
            assert(e.take(i + 1).drop_last() =~= e.take(i as int));
            assert(e.take(i + 1).last() == e[i as int]);
            crate::identifier::lemma_identifier_error_iff(spec_utf8(k@));
        }
        let id = match Identifier::parse(k.as_str()) {
            Ok(id) => id,
            Err(err) => {
                proof {
                    lemma_fns_err_extends(e, *limits, i + 1, e.len() as int);
                    assert(e.take(e.len() as int) =~= e);
                }
                return Err(MetadataError::Identifier(err));
            },
        };
        let sig = match FunctionSignature::parse(v, limits) {
            Ok(s) => s,
            Err(err) => {
                proof {
                    lemma_fns_err_extends(e, *limits, i + 1, e.len() as int);
                    assert(e.take(e.len() as int) =~= e);
                }
                return Err(err);
            },
        };
        let ghost before = out@;
        out.push((id, sig));
        proof {
            assert(spec_fns_model(out@) =~= spec_fns_model(before).push((k@, sig.spec_fields())));
        }
        i = i + 1;
    }
    proof { assert(e.take(e.len() as int) =~= e); }
    Ok(out)
}

/// Whether function names are pairwise distinct.
fn fn_names_distinct(fns: &Vec<(Identifier, FunctionSignature)>) -> (res: bool)
    ensures
        res == spec_names_distinct(spec_fn_names(spec_fns_model(fns@))),
{
    let ghost ns = spec_fn_names(spec_fns_model(fns@));
    let mut a: usize = 0;
    while a < fns.len()
        invariant
            ns == spec_fn_names(spec_fns_model(fns@)),
            a <= fns@.len(),
            forall|x: int, y: int| 0 <= x < y < fns@.len() && x < a ==> spec_utf8(#[trigger] ns[x]) != spec_utf8(#[trigger] ns[y]),
        decreases fns@.len() - a,
    {
        let mut b: usize = a + 1;
        while b < fns.len()
            invariant
                ns == spec_fn_names(spec_fns_model(fns@)),
                a < b <= fns@.len(),
                forall|x: int, y: int| 0 <= x < y < fns@.len() && x < a ==> spec_utf8(#[trigger] ns[x]) != spec_utf8(#[trigger] ns[y]),
                forall|y: int| a < y < b ==> spec_utf8(ns[a as int]) != spec_utf8(#[trigger] ns[y]),
            decreases fns@.len() - b,
        {
            assert(ns[a as int] == fns@[a as int].0@);
            assert(ns[b as int] == fns@[b as int].0@);
            if same_text(fns[a].0.as_str(), fns[b].0.as_str()) {
                return false;
            }
            proof {
                if spec_utf8(ns[a as int]) == spec_utf8(ns[b as int]) {
                    crate::types::model::lemma_utf8_injective(ns[a as int], ns[b as int]);
                }
            }
            b = b + 1;
        }
        a = a + 1;
    }
    true
}

impl Library {
    /// Reads a library record and puts its functions in name order.
    fn parse(v: &Value, limits: &crate::cbor::limits::Limits) -> (res: Result<Library, MetadataError>)
        requires
            limits.spec_valid(),
        ensures
            match spec_parse_lib(*v, *limits) {
                Ok(f) => res matches Ok(r) && r.spec_fields() == f,
                Err(e) => res == Err::<Library, MetadataError>(e),
            },
    {
        let fields: [&'static str; 4] = ["functions", "implementation_digest", "library_id", "version"];
        assert(fields@ == spec_lib_fields());
        let m = closed(v, "library", &fields)?;
        let fns = match m.get("functions") {
            Some(Value::Object(fm)) => parse_fns(fm, limits)?,
            _ => return Err(MetadataError::InvalidShape("functions")),
        };
        if !fn_names_distinct(&fns) {
            return Err(MetadataError::Codec(crate::cbor::error::Error::new(crate::cbor::error::ErrorKind::DuplicateMapKey)));
        }
        let library_id = text_field(m, "library_id")?;
        let version = text_field(m, "version")?;
        let implementation_digest = digest_field(m, "implementation_digest")?;
        let functions = sort_fns(fns);
        Ok(Library { library_id, version, implementation_digest, functions })
    }

    /// Validates a supplied manifest and puts its functions in name order; no
    /// function is pruned and no implementation identity is recomputed.
    pub fn new(library_id: String, version: String, implementation_digest: Digest,
        functions: Vec<(Identifier, FunctionSignature)>, limits: &crate::cbor::limits::Limits) -> (res: Result<Library, MetadataError>)
        ensures
            !limits.spec_valid() ==> res matches Err(MetadataError::Codec(_)),
            limits.spec_valid() ==> match spec_mrun(*limits, (0, 0, 0), spec_lib_steps(*limits,
                (library_id@, version@, implementation_digest@, spec_fns_model(functions@)))) {
                Ok(_) => res matches Ok(r) && r.spec_fields() == (library_id@, version@, implementation_digest@,
                    spec_sort_fns(spec_fns_model(functions@))),
                Err(e) => res == Err::<Library, MetadataError>(e),
            },
            res matches Ok(r) ==> spec_named_sorted(r.spec_fields().3)
                && r.spec_fields().3.to_multiset() == spec_fns_model(functions@).to_multiset(),
    {
        library_value(&library_id, &version, &implementation_digest, &functions, limits)?;
        let functions = sort_fns(functions);
        Ok(Library { library_id, version, implementation_digest, functions })
    }

    /// Bounds an already decoded record under the codec limits, then reads it.
    pub fn from_value(v: &Value, limits: &crate::cbor::limits::Limits) -> (res: Result<Library, MetadataError>)
        ensures
            !(limits.spec_valid() && crate::cbor::encode::spec_fits(*v, *limits)) ==> res matches Err(MetadataError::Codec(_)),
            limits.spec_valid() && crate::cbor::encode::spec_fits(*v, *limits) ==> match spec_parse_lib(*v, *limits) {
                Ok(f) => res matches Ok(r) && r.spec_fields() == f,
                Err(e) => res == Err::<Library, MetadataError>(e),
            },
    {
        if let Err(e) = crate::cbor::encode::encode(v, limits) {
            return Err(MetadataError::Codec(e));
        }
        Library::parse(v, limits)
    }

    /// Encodes exactly one canonical library record.
    pub fn encode(&self, limits: &crate::cbor::limits::Limits) -> (res: Result<Vec<u8>, MetadataError>)
        ensures
            !limits.spec_valid() ==> res matches Err(MetadataError::Codec(_)),
            limits.spec_valid() ==> (spec_mrun(*limits, (0, 0, 0), spec_lib_steps(*limits, self.spec_fields()))
                matches Err(e) ==> res == Err::<Vec<u8>, MetadataError>(e)),
            res matches Ok(b) ==> exists|v: Value| #[trigger] spec_lib_record(v, self.spec_fields())
                && b@ == crate::cbor::value::spec_encode(v),
            limits.spec_valid() ==> match spec_mrun(*limits, (0, 0, 0), spec_lib_steps(*limits, self.spec_fields())) {
                Ok(_) => exists|v: crate::cbor::value::Value| (crate::cbor::encode::spec_fits(v, *limits) <==> res is Ok) && (res matches Ok(b) ==> b@ == crate::cbor::value::spec_encode(v)) && spec_lib_record(v, self.spec_fields()),
                Err(e) => res == Err::<Vec<u8>, MetadataError>(e),
            },
    {
        let v = self.to_value(limits)?;
        match crate::cbor::encode::encode(&v, limits) {
            Ok(b) => Ok(b),
            Err(e) => Err(MetadataError::Codec(e)),
        }
    }

    /// Decodes exactly one canonical library record, rejecting trailing data.
    pub fn decode(bytes: &[u8], limits: &crate::cbor::limits::Limits) -> (res: Result<Library, MetadataError>)
        ensures
            !limits.spec_valid() ==> res matches Err(MetadataError::Codec(_)),
            res matches Ok(r) ==> exists|w: Value| #[trigger] crate::cbor::value::spec_encode(w) == bytes@
                && spec_parse_lib(w, *limits) == Ok::<LibraryFields, MetadataError>(r.spec_fields()),
            limits.spec_valid() && (exists|x: crate::cbor::value::Value| #[trigger] crate::cbor::value::spec_encode(x) == bytes@
                && crate::cbor::value::spec_wf(x) && crate::cbor::value::spec_height(x) <= limits.max_depth
                && bytes@.len() <= limits.max_document_bytes) ==> exists|w: crate::cbor::value::Value|
                #[trigger] crate::cbor::value::spec_encode(w) == bytes@ && crate::cbor::value::spec_wf(w) && (match spec_parse_lib(w, *limits) {
                Ok(f) => res matches Ok(r) && r.spec_fields() == f,
                Err(e) => res == Err::<Library, MetadataError>(e),
            }),
    {
        let v = match crate::cbor::decode::decode(bytes, limits) {
            Ok(v) => v,
            Err(e) => return Err(MetadataError::Codec(e)),
        };
        proof { assert(crate::cbor::value::spec_encode(v) == bytes@ && crate::cbor::value::spec_wf(v)); }
        let r = Library::parse(&v, limits)?;
        assert(crate::cbor::value::spec_encode(v) == bytes@);
        Ok(r)
    }
}

} // verus!

