//! The settings of a node, as they are read from texts.

use vstd::prelude::*;
use vstd::string::StringExecFns;

use crate::history::text_view;
use crate::text::{char_vec, is_blank, parse_decimal, parsed_decimal, trimmed};

verus! {

/// The address of a socket.
#[derive(Clone, Copy, Debug, PartialEq, Eq)]
pub enum BindAddress {
    V4 { octets: [u8; 4], port: u16 },
    V6 { segments: [u16; 8], port: u16, flow_info: u32, scope_id: u32 },
}

/// What the settings are read from: texts, of which those that are not given have a
/// default, and the address that one of them was parsed to.
pub struct ConfigTexts {
    /// The address that the text of `bind_setting` says, if it says one.
    pub bind: Option<BindAddress>,
    pub data_dir: Option<String>,
    pub shards: Option<String>,
    pub wal_batch: Option<String>,
    pub wal_flush_ms: Option<String>,
    pub nats_url: Option<String>,
    pub live_tail: Option<String>,
    pub fail_after_replicate_id: Option<String>,
    pub instance_id: Option<String>,
    pub writer_priority_delay_ms: Option<String>,
}

/// The settings of a node.
#[derive(Debug)]
pub struct Config {
    /// Where the node listens.
    pub bind: BindAddress,
    pub data_dir: String,
    /// The number of state shards, a power of two.
    pub shards: usize,
    /// The most records that are written to the local log at once.
    pub wal_batch: usize,
    /// How long the local log waits for more records, in milliseconds.
    pub wal_flush_ms: usize,
    pub nats_url: Option<String>,
    pub live_tail: bool,
    pub fail_after_replicate_id: Option<String>,
    pub instance_id: String,
    /// How long the node waits before it asks for the writer lease, in milliseconds.
    pub writer_priority_delay_ms: usize,
}

/// Why the settings cannot be used.
#[derive(Clone, Copy, Debug, PartialEq, Eq, Structural)]
pub enum ConfigError {
    InvalidBind,
    InvalidShards,
    InvalidWalBatch,
    InvalidWalFlush,
    ShardsNotPowerOfTwo,
    WalBatchNotPositive,
    InvalidWriterPriorityDelay,
}

/// Whether a number is a power of two.
pub open spec fn is_power_of_two(n: nat) -> bool
    decreases n,
{
    n == 1 || (n > 0 && n % 2 == 0 && is_power_of_two(n / 2))
}

fn power_of_two(n: usize) -> (result: bool)
    ensures
        result == is_power_of_two(n as nat),
    decreases n,
{
    n == 1 || (n > 0 && n % 2 == 0 && power_of_two(n / 2))
}

/// The number that a setting says; where it is not given, the default.
pub open spec fn number_setting(text: Option<Seq<char>>, default: usize) -> Option<nat> {
    match text {
        Some(text) => parsed_decimal(text, usize::MAX as nat),
        None => Some(default as nat),
    }
}

/// The number that a setting says; where it is not given, the default.
pub fn parse_usize(text: &Option<String>, default: usize) -> (result: Option<usize>)
    ensures
        match result {
            Some(number) => number_setting(text_view(*text), default) == Some(number as nat),
            None => number_setting(text_view(*text), default) is None,
        },
{
    match text {
        None => Some(default),
        Some(text) => match parse_decimal(&char_vec(text.as_str())) {
            Some(number) => if number <= usize::MAX as u64 {
                Some(number as usize)
            } else {
                None
            },
            None => None,
        },
    }
}

/// What a setting says; where it is not given, the default.
pub open spec fn text_setting(text: Option<Seq<char>>, default: Seq<char>) -> Seq<char> {
    match text {
        Some(text) => text,
        None => default,
    }
}

fn value(text: &Option<String>, default: &str) -> (value: String)
    ensures
        value@ == text_setting(text_view(*text), default@),
{
    match text {
        Some(text) => text.clone(),
        None => String::from_str(default),
    }
}

/// The text that says where the node listens; it has to say the address of a socket.
pub fn bind_setting(bind: &Option<String>) -> (text: String)
    ensures
        text@ == text_setting(text_view(*bind), "127.0.0.1:8080"@),
{
    value(bind, "127.0.0.1:8080")
}

/// What an optional setting says; white space alone says nothing.
pub open spec fn optional_setting(text: Option<Seq<char>>) -> Option<Seq<char>> {
    match text {
        Some(text) => if trimmed(text).len() == 0 {
            None
        } else {
            Some(text)
        },
        None => None,
    }
}

fn optional(text: &Option<String>) -> (value: Option<String>)
    ensures
        text_view(value) == optional_setting(text_view(*text)),
{
    match text {
        Some(text) => if is_blank(text.as_str()) {
            None
        } else {
            Some(text.clone())
        },
        None => None,
    }
}

/// The first thing that is wrong with the settings.
pub open spec fn config_error(texts: ConfigTexts) -> Option<ConfigError> {
    let shards = number_setting(text_view(texts.shards), 16);
    let wal_batch = number_setting(text_view(texts.wal_batch), 1024);
    if texts.bind is None {
        Some(ConfigError::InvalidBind)
    } else if shards is None {
        Some(ConfigError::InvalidShards)
    } else if wal_batch is None {
        Some(ConfigError::InvalidWalBatch)
    } else if number_setting(text_view(texts.wal_flush_ms), 2) is None {
        Some(ConfigError::InvalidWalFlush)
    } else if !is_power_of_two(shards->0) {
        Some(ConfigError::ShardsNotPowerOfTwo)
    } else if wal_batch->0 == 0 {
        Some(ConfigError::WalBatchNotPositive)
    } else if number_setting(text_view(texts.writer_priority_delay_ms), 0) is None {
        Some(ConfigError::InvalidWriterPriorityDelay)
    } else {
        None
    }
}

/// Whether settings are what the texts say.
pub open spec fn config_says(config: Config, texts: ConfigTexts) -> bool {
    &&& texts.bind == Some(config.bind)
    &&& config.data_dir@ == text_setting(text_view(texts.data_dir), "data"@)
    &&& number_setting(text_view(texts.shards), 16) == Some(config.shards as nat)
    &&& number_setting(text_view(texts.wal_batch), 1024) == Some(config.wal_batch as nat)
    &&& number_setting(text_view(texts.wal_flush_ms), 2) == Some(config.wal_flush_ms as nat)
    &&& text_view(config.nats_url) == optional_setting(text_view(texts.nats_url))
    &&& config.live_tail == (text_setting(text_view(texts.live_tail), "false"@) == "true"@)
    &&& text_view(config.fail_after_replicate_id) == optional_setting(
        text_view(texts.fail_after_replicate_id),
    )
    &&& config.instance_id@ == text_setting(text_view(texts.instance_id), "warehouse-local"@)
    &&& number_setting(text_view(texts.writer_priority_delay_ms), 0) == Some(
        config.writer_priority_delay_ms as nat,
    )
}

impl Config {
    /// Reads the settings.
    pub fn from_env(texts: &ConfigTexts) -> (result: Result<Config, ConfigError>)
        ensures
            match result {
                Ok(config) => config_error(*texts) is None && config_says(config, *texts)
                    && is_power_of_two(config.shards as nat) && config.shards > 0
                    && config.wal_batch > 0,
                Err(e) => config_error(*texts) == Some(e),
            },
    {
        let bind: BindAddress = match texts.bind {
            Some(bind) => bind,
            None => {
                return Err(ConfigError::InvalidBind);
            },
        };
        let shards: usize = match parse_usize(&texts.shards, 16) {
            Some(shards) => shards,
            None => {
                return Err(ConfigError::InvalidShards);
            },
        };
        let wal_batch: usize = match parse_usize(&texts.wal_batch, 1024) {
            Some(wal_batch) => wal_batch,
            None => {
                return Err(ConfigError::InvalidWalBatch);
            },
        };
        let wal_flush_ms: usize = match parse_usize(&texts.wal_flush_ms, 2) {
            Some(wal_flush_ms) => wal_flush_ms,
            None => {
                return Err(ConfigError::InvalidWalFlush);
            },
        };
        if !power_of_two(shards) {
            return Err(ConfigError::ShardsNotPowerOfTwo);
        }
        if wal_batch == 0 {
            return Err(ConfigError::WalBatchNotPositive);
        }
        let writer_priority_delay_ms: usize = match parse_usize(&texts.writer_priority_delay_ms, 0) {
            Some(delay) => delay,
            None => {
                return Err(ConfigError::InvalidWriterPriorityDelay);
            },
        };
        let live_tail: String = value(&texts.live_tail, "false");
        let live: String = String::from_str("true");
        Ok(
            Config {
                bind,
                data_dir: value(&texts.data_dir, "data"),
                shards,
                wal_batch,
                wal_flush_ms,
                nats_url: optional(&texts.nats_url),
                live_tail: live_tail == live,
                fail_after_replicate_id: optional(&texts.fail_after_replicate_id),
                instance_id: value(&texts.instance_id, "warehouse-local"),
                writer_priority_delay_ms,
            },
        )
    }
}

// ---------------------------------------------------------------- laws
/// A number is a power of two exactly where it is two times itself some number of
/// times.
pub proof fn law_powers_of_two(n: nat, k: nat)
    ensures
        is_power_of_two(vstd::arithmetic::power2::pow2(k)),
        is_power_of_two(n) ==> exists|e: nat| #[trigger] vstd::arithmetic::power2::pow2(e) == n,
    decreases n, k,
{
    vstd::arithmetic::power2::lemma2_to64();
    if k > 0 {
        law_powers_of_two(0, (k - 1) as nat);
        vstd::arithmetic::power2::lemma_pow2_unfold(k);
        vstd::arithmetic::power2::lemma_pow2_pos((k - 1) as nat);
    }
    if is_power_of_two(n) && n != 1 {
        law_powers_of_two(n / 2, 0);
        let e = choose|e: nat| #[trigger] vstd::arithmetic::power2::pow2(e) == n / 2;
        vstd::arithmetic::power2::lemma_pow2_unfold(e + 1);
        assert(vstd::arithmetic::power2::pow2(e + 1) == n);
    } else if n == 1 {
        assert(vstd::arithmetic::power2::pow2(0) == 1);
    }
}

/// A setting that is there counts, and the default only where none is; a number that
/// cannot be read is none. An optional text counts unless it is blank.
pub proof fn law_settings_go_before_defaults(text: Seq<char>, default: usize, other: Seq<char>)
    ensures
        number_setting(Some(text), default) == parsed_decimal(text, usize::MAX as nat),
        number_setting(None, default) == Some(default as nat),
        text_setting(Some(text), other) == text,
        text_setting(None, other) == other,
        optional_setting(None) is None,
        (forall|i: int| 0 <= i < text.len() ==> crate::text::is_white_space(#[trigger] text[i]))
            ==> optional_setting(Some(text)) is None,
        (exists|i: int| 0 <= i < text.len() && !crate::text::is_white_space(#[trigger] text[i]))
            ==> optional_setting(Some(text)) == Some(text),
{
    let (from, to) = crate::text::law_trimming_takes_white_space_from_the_ends(text);
    if from < to {
        assert(!crate::text::is_white_space(text[from]));
    }
}

/// A configuration is refused exactly where the address, a number or its range is
/// wrong, for the first of these reasons.
pub proof fn law_configuration_is_refused_by_the_rules(texts: ConfigTexts)
    ensures
        ({
            let shards = number_setting(text_view(texts.shards), 16);
            let batch = number_setting(text_view(texts.wal_batch), 1024);
            let flush = number_setting(text_view(texts.wal_flush_ms), 2);
            let delay = number_setting(text_view(texts.writer_priority_delay_ms), 0);
            let read = texts.bind is Some && shards is Some && batch is Some && flush is Some;
            let why = config_error(texts);
            &&& why is None <==> read && is_power_of_two(shards->0) && batch->0 > 0 && delay is Some
            &&& texts.bind is None <==> why == Some(ConfigError::InvalidBind)
            &&& texts.bind is Some && shards is None <==> why == Some(ConfigError::InvalidShards)
            &&& texts.bind is Some && shards is Some && batch is None <==> why == Some(
                ConfigError::InvalidWalBatch,
            )
            &&& texts.bind is Some && shards is Some && batch is Some && flush is None <==> why
                == Some(ConfigError::InvalidWalFlush)
            &&& read && !is_power_of_two(shards->0) <==> why == Some(
                ConfigError::ShardsNotPowerOfTwo,
            )
            &&& read && is_power_of_two(shards->0) && batch->0 == 0 <==> why == Some(
                ConfigError::WalBatchNotPositive,
            )
        }),
{
}

/// A configuration says what its settings say, each under its own name.
pub proof fn law_configuration_says_its_settings(config: Config, texts: ConfigTexts)
    requires
        config_says(config, texts),
    ensures
        texts.bind == Some(config.bind),
        texts.data_dir matches Some(text) ==> config.data_dir@ == text@,
        texts.data_dir is None ==> config.data_dir@ == "data"@,
        texts.shards is None ==> config.shards == 16,
        texts.shards matches Some(text) ==> parsed_decimal(text@, usize::MAX as nat) == Some(
            config.shards as nat,
        ),
        texts.wal_batch is None ==> config.wal_batch == 1024,
        texts.wal_batch matches Some(text) ==> parsed_decimal(text@, usize::MAX as nat) == Some(
            config.wal_batch as nat,
        ),
        texts.wal_flush_ms is None ==> config.wal_flush_ms == 2,
        texts.wal_flush_ms matches Some(text) ==> parsed_decimal(text@, usize::MAX as nat) == Some(
            config.wal_flush_ms as nat,
        ),
        texts.writer_priority_delay_ms is None ==> config.writer_priority_delay_ms == 0,
        texts.writer_priority_delay_ms matches Some(text) ==> parsed_decimal(
            text@,
            usize::MAX as nat,
        ) == Some(config.writer_priority_delay_ms as nat),
        texts.instance_id matches Some(text) ==> config.instance_id@ == text@,
        texts.instance_id is None ==> config.instance_id@ == "warehouse-local"@,
        texts.live_tail matches Some(text) ==> (config.live_tail <==> text@ == "true"@),
        texts.live_tail is None ==> !config.live_tail,
        texts.nats_url is None ==> config.nats_url is None,
        texts.nats_url matches Some(text) ==> (match config.nats_url {
            Some(url) => url@ == text@,
            None => trimmed(text@).len() == 0,
        }),
        texts.fail_after_replicate_id is None ==> config.fail_after_replicate_id is None,
        texts.fail_after_replicate_id matches Some(text) ==> (match config.fail_after_replicate_id {
            Some(id) => id@ == text@,
            None => trimmed(text@).len() == 0,
        }),
        config.nats_url matches Some(url) ==> trimmed(url@).len() > 0,
        config.fail_after_replicate_id matches Some(id) ==> trimmed(id@).len() > 0,
{
    reveal_strlit("true");
    reveal_strlit("false");
    assert("true"@.len() != "false"@.len());
}

} // verus!
