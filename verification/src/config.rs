//! Configuration validation: the rule table, the per-key checks, and
//! all-or-nothing validation of an update batch.
//!
//! Rules that depend on the filesystem (whether a value names an existing
//! file, and whether it lies under the node's base directory) take those
//! facts as plain values in [`PathFacts`], probed by the embedder; the
//! decision logic here is verified for every combination of them.

use vstd::prelude::*;

use crate::numeric::{float_in_range, parse_u32_chars, parses_float, parses_u32, u32_value};
use crate::text::{segment_starts_with, starts_with, str_equal, str_to_chars, strings_view};

verus! {

/// One configuration update: a key and the value to set it to.
pub struct ConfigUpdate {
    pub key: String,
    pub value: String,
}

impl ConfigUpdate {
    pub fn new(key: String, value: String) -> (r: ConfigUpdate)
        ensures
            r.key@ == key@,
            r.value@ == value@,
    {
        ConfigUpdate { key, value }
    }
}

/// What the filesystem says about an update's value when read as a path:
/// whether such a file exists, and whether it lies under the node's base
/// directory. Probed outside the library and handed in as plain values.
#[derive(Clone, Copy)]
pub struct PathFacts {
    pub file_exists: bool,
    pub under_base_dir: bool,
}

/// The validation policy bound to one recognized configuration key.
pub enum ConfigRule {
    /// A well-formed absolute URL, or an existing file under the base
    /// directory.
    UrlOrLocalFile,
    /// A base-10 integer at least zero.
    NonNegativeInteger,
    /// A base-10 integer strictly above zero.
    PositiveInteger,
    /// A floating-point numeral whose exact value lies within `[min, max]`
    /// inclusive.
    BoundedFloat { min: i64, max: i64 },
    /// Exactly one member of a closed set of strings.
    EnumOf { allowed: Vec<String> },
    /// A filesystem path that exists.
    ExistingPath,
    /// Accepted as is.
    FreeText,
}

/// Bounds a `BoundedFloat` rule may carry, so that the range check can be
/// decided exactly.
pub open spec fn rule_wf(rule: ConfigRule) -> bool {
    match rule {
        ConfigRule::BoundedFloat { min, max } => -(u32::MAX as int) <= min <= max <= u32::MAX
            as int,
        _ => true,
    }
}

/// Whether a string parses as an absolute URL, exactly as `url::Url::parse`
/// decides it. The result depends on the characters alone.
pub uninterp spec fn url_parses(s: Seq<char>) -> bool;

/// Relies on url::Url::parse, which parses an absolute URL from a string and
/// returns an error otherwise; whether it succeeds is a function of the
/// string alone.
#[verifier::external_body]
fn url_parse_ok(value: &str) -> (r: bool)
    ensures
        r == url_parses(value@),
{
    url::Url::parse(value).is_ok()
}

/// The value begins with an explicit web URL scheme.
pub open spec fn has_url_scheme(v: Seq<char>) -> bool {
    starts_with(v, "http://"@) || starts_with(v, "https://"@)
}

/// Whether a value is to be treated as a remote URL rather than a local
/// path: it begins with `http://` or `https://`.
pub fn is_remote_url(value: &str) -> (r: bool)
    ensures
        r == has_url_scheme(value@),
{
    let chars = str_to_chars(value);
    proof {
        assert(chars@.subrange(0, chars@.len() as int) =~= value@);
    }
    let len = chars.len();
    segment_starts_with(&chars, 0, len, "http://") || segment_starts_with(&chars, 0, len, "https://")
}

/// What a rule accepts, given the value's characters and the filesystem
/// facts about it.
pub open spec fn rule_ok(rule: ConfigRule, v: Seq<char>, f: PathFacts) -> bool {
    match rule {
        ConfigRule::UrlOrLocalFile => url_parses(v) || (f.file_exists && f.under_base_dir),
        ConfigRule::NonNegativeInteger => parses_u32(v),
        ConfigRule::PositiveInteger => parses_u32(v) && u32_value(v) > 0,
        ConfigRule::BoundedFloat { min, max } => parses_float(v) && float_in_range(
            v,
            min as int,
            max as int,
        ),
        ConfigRule::EnumOf { allowed } => exists|j: int|
            0 <= j < allowed@.len() && #[trigger] allowed@[j]@ == v,
        ConfigRule::ExistingPath => f.file_exists,
        ConfigRule::FreeText => true,
    }
}

impl ConfigRule {
    /// Whether `value` satisfies this rule, under the given filesystem facts.
    pub fn check(&self, value: &str, facts: &PathFacts) -> (r: bool)
        requires
            rule_wf(*self),
        ensures
            r == rule_ok(*self, value@, *facts),
    {
        match self {
            ConfigRule::UrlOrLocalFile => {
                url_parse_ok(value) || (facts.file_exists && facts.under_base_dir)
            },
            ConfigRule::NonNegativeInteger => parse_value_u32(value).is_some(),
            ConfigRule::PositiveInteger => {
                match parse_value_u32(value) {
                    Some(x) => x > 0,
                    None => false,
                }
            },
            ConfigRule::BoundedFloat { min, max } => {
                let chars = str_to_chars(value);
                match crate::numeric::float_in_range_check(&chars, *min, *max) {
                    Some(in_range) => in_range,
                    None => false,
                }
            },
            ConfigRule::EnumOf { allowed } => {
                let n = allowed.len();
                let mut j: usize = 0;
                while j < n
                    invariant
                        j <= n,
                        n == allowed@.len(),
                        (*self) matches ConfigRule::EnumOf { allowed: x } && x == *allowed,
                        forall|m: int| 0 <= m < j ==> #[trigger] allowed@[m]@ != value@,
                    decreases n - j,
                {
                    if str_equal(allowed[j].as_str(), value) {
                        proof {
                            assert(allowed@[j as int]@ == value@);
                        }
                        return true;
                    }
                    j = j + 1;
                }
                false
            },
            ConfigRule::ExistingPath => facts.file_exists,
            ConfigRule::FreeText => true,
        }
    }
}

/// Parses a configuration value as a base-10 `u32`.
fn parse_value_u32(value: &str) -> (r: Option<u32>)
    ensures
        r is Some <==> parses_u32(value@),
        r matches Some(x) ==> x == u32_value(value@),
{
    let chars = str_to_chars(value);
    parse_u32_chars(&chars)
}

pub open spec fn is_url_or_file_key(k: Seq<char>) -> bool {
    k == "chat-url"@ || k == "embedding-url"@ || k == "snapshot"@
}

pub open spec fn is_nonneg_int_key(k: Seq<char>) -> bool {
    k == "chat-ctx-size"@ || k == "embedding-ctx-size"@ || k == "port"@
}

pub open spec fn is_free_text_key(k: Seq<char>) -> bool {
    k == "prompt-template"@ || k == "system-prompt"@ || k == "rag-prompt"@ || k
        == "reverse-prompt"@
}

/// The closed set of recognized configuration keys.
pub open spec fn known_key(k: Seq<char>) -> bool {
    is_url_or_file_key(k) || is_nonneg_int_key(k) || k == "qdrant-limit"@ || k
        == "qdrant-score-threshold"@ || k == "rag-policy"@ || k == "base"@ || is_free_text_key(k)
}

/// The rule table, as a relation between a key and its looked-up rule. The
/// branches follow the same chain as [`update_ok`], so the two agree without
/// any appeal to which key literals differ.
pub open spec fn rule_matches_key(r: Option<ConfigRule>, k: Seq<char>) -> bool {
    if is_url_or_file_key(k) {
        r matches Some(ConfigRule::UrlOrLocalFile)
    } else if is_nonneg_int_key(k) {
        r matches Some(ConfigRule::NonNegativeInteger)
    } else if k == "qdrant-limit"@ {
        r matches Some(ConfigRule::PositiveInteger)
    } else if k == "qdrant-score-threshold"@ {
        r matches Some(ConfigRule::BoundedFloat { min, max }) && min == 0 && max == 1
    } else if k == "rag-policy"@ {
        r matches Some(ConfigRule::EnumOf { allowed }) && strings_view(allowed@) =~= seq![
            "system-message"@,
            "last-user-message"@,
        ]
    } else if k == "base"@ {
        r matches Some(ConfigRule::ExistingPath)
    } else if is_free_text_key(k) {
        r matches Some(ConfigRule::FreeText)
    } else {
        r is None
    }
}

/// Looks `key` up in the rule table; `None` for any unrecognized key.
pub fn rule_for_key(key: &str) -> (r: Option<ConfigRule>)
    ensures
        rule_matches_key(r, key@),
        r matches Some(rule) ==> rule_wf(rule),
{
    if str_equal(key, "chat-url") || str_equal(key, "embedding-url") || str_equal(
        key,
        "snapshot",
    ) {
        Some(ConfigRule::UrlOrLocalFile)
    } else if str_equal(key, "chat-ctx-size") || str_equal(key, "embedding-ctx-size") || str_equal(
        key,
        "port",
    ) {
        Some(ConfigRule::NonNegativeInteger)
    } else if str_equal(key, "qdrant-limit") {
        Some(ConfigRule::PositiveInteger)
    } else if str_equal(key, "qdrant-score-threshold") {
        Some(ConfigRule::BoundedFloat { min: 0, max: 1 })
    } else if str_equal(key, "rag-policy") {
        let mut allowed: Vec<String> = Vec::new();
        allowed.push("system-message".to_owned());
        allowed.push("last-user-message".to_owned());
        proof {
            assert(strings_view(allowed@) =~= seq!["system-message"@, "last-user-message"@]);
        }
        Some(ConfigRule::EnumOf { allowed })
    } else if str_equal(key, "base") {
        Some(ConfigRule::ExistingPath)
    } else if str_equal(key, "prompt-template") || str_equal(key, "system-prompt") || str_equal(
        key,
        "rag-prompt",
    ) || str_equal(key, "reverse-prompt") {
        Some(ConfigRule::FreeText)
    } else {
        None
    }
}

/// Whether one update is accepted: its key is recognized and its value
/// satisfies the key's rule under the given filesystem facts.
pub open spec fn update_ok(k: Seq<char>, v: Seq<char>, f: PathFacts) -> bool {
    if is_url_or_file_key(k) {
        url_parses(v) || (f.file_exists && f.under_base_dir)
    } else if is_nonneg_int_key(k) {
        parses_u32(v)
    } else if k == "qdrant-limit"@ {
        parses_u32(v) && u32_value(v) > 0
    } else if k == "qdrant-score-threshold"@ {
        parses_float(v) && float_in_range(v, 0, 1)
    } else if k == "rag-policy"@ {
        v == "system-message"@ || v == "last-user-message"@
    } else if k == "base"@ {
        f.file_exists
    } else if is_free_text_key(k) {
        true
    } else {
        false
    }
}

/// Why one update was rejected. Each variant carries the offending key (and,
/// except for an unknown key, the offending value).
#[derive(Debug)]
pub enum ValidationError {
    UnknownKey { key: String },
    InvalidUrlOrPath { key: String, value: String },
    InvalidNumber { key: String, value: String },
    OutOfRange { key: String, value: String },
    InvalidEnumValue { key: String, value: String },
    PathNotFound { key: String, value: String },
}

/// The error a rejected update must carry: the right variant for its key's
/// rule, naming that key and value.
pub open spec fn error_matches(e: ValidationError, k: Seq<char>, v: Seq<char>, f: PathFacts) -> bool {
    match e {
        ValidationError::UnknownKey { key } => key@ == k && !known_key(k),
        ValidationError::InvalidUrlOrPath { key, value } => key@ == k && value@ == v
            && is_url_or_file_key(k) && !update_ok(k, v, f),
        ValidationError::InvalidNumber { key, value } => key@ == k && value@ == v && {
            ||| is_nonneg_int_key(k) && !parses_u32(v)
            ||| k == "qdrant-limit"@ && !(parses_u32(v) && u32_value(v) > 0)
            ||| k == "qdrant-score-threshold"@ && !parses_float(v)
        },
        ValidationError::OutOfRange { key, value } => key@ == k && value@ == v && k
            == "qdrant-score-threshold"@ && parses_float(v) && !float_in_range(v, 0, 1),
        ValidationError::InvalidEnumValue { key, value } => key@ == k && value@ == v && k
            == "rag-policy"@ && v != "system-message"@ && v != "last-user-message"@,
        ValidationError::PathNotFound { key, value } => key@ == k && value@ == v && k == "base"@
            && !f.file_exists,
    }
}

/// A rule looked up for `k` accepts a value exactly when [`update_ok`] does.
proof fn lemma_rule_agrees(rule: ConfigRule, k: Seq<char>, v: Seq<char>, f: PathFacts)
    requires
        rule_matches_key(Some(rule), k),
    ensures
        rule_ok(rule, v, f) == update_ok(k, v, f),
{
    match rule {
        ConfigRule::EnumOf { allowed } => {
            assert(strings_view(allowed@)[0] == allowed@[0]@);
            assert(strings_view(allowed@)[1] == allowed@[1]@);
            if v == "system-message"@ {
                assert(allowed@[0]@ == v);
            }
            if v == "last-user-message"@ {
                assert(allowed@[1]@ == v);
            }
            if exists|j: int| 0 <= j < allowed@.len() && #[trigger] allowed@[j]@ == v {
                let j = choose|j: int| 0 <= j < allowed@.len() && #[trigger] allowed@[j]@ == v;
                assert(strings_view(allowed@)[j] == allowed@[j]@);
            }
        },
        _ => {},
    }
}

/// Validates one key/value pair: looks the key up in the rule table and
/// applies its rule. `Ok` exactly when the key is recognized and the value
/// satisfies the rule; otherwise the error names the key, the value and the
/// way the pair failed.
pub fn validate_config_command(key: &str, value: &str, facts: &PathFacts) -> (r: Result<
    (),
    ValidationError,
>)
    ensures
        r is Ok <==> update_ok(key@, value@, *facts),
        r matches Err(e) ==> error_matches(e, key@, value@, *facts),
{
    match rule_for_key(key) {
        None => Err(ValidationError::UnknownKey { key: key.to_owned() }),
        Some(rule) => {
            let ok = rule.check(value, facts);
            proof {
                lemma_rule_agrees(rule, key@, value@, *facts);
            }
            if ok {
                Ok(())
            } else {
                match rule {
                    ConfigRule::UrlOrLocalFile => Err(
                        ValidationError::InvalidUrlOrPath {
                            key: key.to_owned(),
                            value: value.to_owned(),
                        },
                    ),
                    ConfigRule::NonNegativeInteger => Err(
                        ValidationError::InvalidNumber {
                            key: key.to_owned(),
                            value: value.to_owned(),
                        },
                    ),
                    ConfigRule::PositiveInteger => Err(
                        ValidationError::InvalidNumber {
                            key: key.to_owned(),
                            value: value.to_owned(),
                        },
                    ),
                    ConfigRule::BoundedFloat { .. } => {
                        if parse_float_only(value) {
                            Err(
                                ValidationError::OutOfRange {
                                    key: key.to_owned(),
                                    value: value.to_owned(),
                                },
                            )
                        } else {
                            Err(
                                ValidationError::InvalidNumber {
                                    key: key.to_owned(),
                                    value: value.to_owned(),
                                },
                            )
                        }
                    },
                    ConfigRule::EnumOf { .. } => Err(
                        ValidationError::InvalidEnumValue {
                            key: key.to_owned(),
                            value: value.to_owned(),
                        },
                    ),
                    ConfigRule::ExistingPath => Err(
                        ValidationError::PathNotFound {
                            key: key.to_owned(),
                            value: value.to_owned(),
                        },
                    ),
                    ConfigRule::FreeText => {
                        proof {
                            assert(false);
                        }
                        Err(ValidationError::UnknownKey { key: key.to_owned() })
                    },
                }
            }
        },
    }
}

/// Whether `value` parses as a float at all, regardless of range.
fn parse_float_only(value: &str) -> (r: bool)
    ensures
        r == parses_float(value@),
{
    let chars = str_to_chars(value);
    match crate::numeric::float_in_range_check(&chars, 0, 0) {
        Some(_) => true,
        None => false,
    }
}

/// Every update in the batch is accepted.
pub open spec fn batch_ok(updates: Seq<ConfigUpdate>, facts: Seq<PathFacts>) -> bool {
    forall|i: int|
        0 <= i < updates.len() ==> update_ok(
            #[trigger] updates[i].key@,
            updates[i].value@,
            facts[i],
        )
}

/// `i` is the first position whose update is rejected.
pub open spec fn first_failure(updates: Seq<ConfigUpdate>, facts: Seq<PathFacts>, i: int) -> bool {
    &&& 0 <= i < updates.len()
    &&& !update_ok(updates[i].key@, updates[i].value@, facts[i])
    &&& forall|j: int|
        0 <= j < i ==> update_ok(#[trigger] updates[j].key@, updates[j].value@, facts[j])
}

/// Validates a batch all-or-nothing, in input order: succeeds exactly when
/// every pair is accepted; otherwise reports the first rejected pair's error
/// and nothing is ever built from the batch.
pub fn validate_batch(updates: &Vec<ConfigUpdate>, facts: &Vec<PathFacts>) -> (r: Result<
    (),
    ValidationError,
>)
    requires
        updates@.len() == facts@.len(),
    ensures
        r is Ok <==> batch_ok(updates@, facts@),
        r matches Err(e) ==> exists|i: int|
            #[trigger] first_failure(updates@, facts@, i) && error_matches(
                e,
                updates@[i].key@,
                updates@[i].value@,
                facts@[i],
            ),
{
    let n = updates.len();
    let mut i: usize = 0;
    while i < n
        invariant
            i <= n,
            n == updates@.len(),
            updates@.len() == facts@.len(),
            forall|j: int|
                0 <= j < i ==> update_ok(
                    #[trigger] updates@[j].key@,
                    updates@[j].value@,
                    facts@[j],
                ),
        decreases n - i,
    {
        match validate_config_command(updates[i].key.as_str(), updates[i].value.as_str(), &facts[i]) {
            Ok(_) => {},
            Err(e) => {
                proof {
                    assert(first_failure(updates@, facts@, i as int));
                }
                return Err(e);
            },
        }
        i = i + 1;
    }
    Ok(())
}

} // verus!
