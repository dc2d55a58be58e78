use vstd::prelude::*;

verus! {

/// Runtime configuration, read from a TOML file by the surrounding binary
/// and handed to the library as plain values.
pub struct Config {
    pub setup: Setup,
    pub osu: OsuConfig,
}

/// Server-side settings: logging level, listen port, poll interval in
/// seconds, history retention count, and an optional score id to resume
/// fetching from.
pub struct Setup {
    pub log: String,
    pub port: u16,
    pub interval: u64,
    pub history_length: usize,
    pub resume_score_id: Option<u64>,
}

/// Credentials and filter for the upstream scores API.
pub struct OsuConfig {
    pub client_id: u64,
    pub client_secret: Vec<u8>,
    pub ruleset: Option<Vec<u8>>,
}

impl Setup {
    /// Default logging level.
    pub fn default_log() -> (r: String)
        ensures
            r@ == "info"@,
    {
        let r = "info".to_owned();
        r
    }

    /// Default listen port.
    pub fn default_port() -> (r: u16)
        ensures
            r == 7277u16,
    {
        7277
    }

    /// Default poll interval in seconds.
    pub fn default_interval() -> (r: u64)
        ensures
            r == 60u64,
    {
        60
    }

    /// Default history retention count.
    pub fn default_history_length() -> (r: usize)
        ensures
            r == 100000usize,
    {
        100000
    }
}

impl Config {
    /// True exactly when `value` is one of the strings in `valid`.
    ///
    /// The binary rejects a configuration file whose `setup.log` or
    /// `osu.ruleset` entry fails this check.
    pub fn assert_valid_str(value: &str, valid: &[&str]) -> (r: bool)
        ensures
            r == exists|i: int| 0 <= i < valid@.len() && valid@[i]@ == value@,
    {
        let mut i: usize = 0;
        while i < valid.len()
            invariant
                i <= valid@.len(),
                forall|j: int| 0 <= j < i ==> valid@[j]@ != value@,
            decreases valid@.len() - i,
        {
            let candidate: &str = valid[i];
            if str_eq(candidate, value) {
                return true;
            }
            i = i + 1;
        }
        false
    }
}

/// True exactly when the two strings hold the same characters.
fn str_eq(a: &str, b: &str) -> (r: bool)
    ensures
        r == (a@ == b@),
{
    let ab = a.as_bytes();
    let bb = b.as_bytes();
    let r = bytes_eq(ab, bb);
    proof {
        vstd::utf8::encode_utf8_decode_utf8(a@);
        vstd::utf8::encode_utf8_decode_utf8(b@);
    }
    r
}

/// True exactly when the two byte slices are equal.
pub fn bytes_eq(a: &[u8], b: &[u8]) -> (r: bool)
    ensures
        r == (a@ == b@),
{
    if a.len() != b.len() {
        proof {
            assert(a@.len() != b@.len());
        }
        return false;
    }
    let mut i: usize = 0;
    while i < a.len()
        invariant
            a@.len() == b@.len(),
            i <= a@.len(),
            forall|j: int| 0 <= j < i ==> a@[j] == b@[j],
        decreases a@.len() - i,
    {
        if a[i] != b[i] {
            return false;
        }
        i = i + 1;
    }
    proof {
        assert(a@ =~= b@);
    }
    true
}

} // verus!
