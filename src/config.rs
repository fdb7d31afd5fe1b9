//! The configuration snapshot of the service and the rules that check it.
use vstd::prelude::*;
use crate::size::{parse_size_bytes, parse_uint, parse_unsigned, size_value};
use crate::span::{duration_of, read_duration, Span};
use crate::text::{chars_of, trim, trim_range};

verus! {

/// An IP address: four octets, or eight 16-bit groups.
#[derive(Clone, Copy, Debug, PartialEq, Eq)]
pub enum HostAddr {
    V4([u8; 4]),
    V6([u16; 8]),
}

#[derive(Clone, Debug)]
pub struct TelemetryCfg {
    pub log_level: String,
}

#[derive(Clone, Debug)]
pub struct HttpCfg {
    pub host: HostAddr,
    pub port: u16,
    pub request_timeout: Span,
    pub idle_timeout: Span,
    pub body_limit_bytes: usize,
    pub allowed_origins: Vec<String>,
}

#[derive(Clone, Debug)]
pub struct Config {
    pub app_name: String,
    pub http: HttpCfg,
    pub telemetry: TelemetryCfg,
}

#[derive(Debug)]
pub enum ConfigError {
    InvalidIp(String),
    InvalidPort(String),
    InvalidDuration(&'static str, String),
    InvalidBodyLimit(String),
    Validation(String),
}

/// The raw configuration values, as text, with the host already read as an address.
#[derive(Clone, Debug)]
pub struct Settings {
    pub app_name: String,
    pub host: HostAddr,
    pub port: String,
    pub request_timeout: String,
    pub idle_timeout: String,
    pub body_limit: String,
    pub cors_origins: String,
    pub log_level: String,
}

pub open spec fn strings_view(v: Seq<String>) -> Seq<Seq<char>> {
    v.map_values(|x: String| x@)
}

/// What is wrong with a configuration, first rule first, or `None`.
pub open spec fn validation_message(
    port: u16,
    request_timeout: Span,
    idle_timeout: Span,
    body: usize,
) -> Option<Seq<char>> {
    if port == 0 {
        Some("HTTP_PORT must be > 0"@)
    } else if request_timeout.total_nanos() < 100_000_000 || request_timeout.total_nanos()
        > 120_000_000_000 {
        Some("HTTP_REQUEST_TIMEOUT must be between 100ms and 120s"@)
    } else if idle_timeout.total_nanos() < 1_000_000_000 || idle_timeout.total_nanos()
        > 300_000_000_000 {
        Some("HTTP_IDLE_TIMEOUT must be between 1s and 300s"@)
    } else if body < 8 * 1024 || body > 32 * 1024 * 1024 {
        Some("HTTP_BODY_LIMIT must be between 8KB and 32MB"@)
    } else {
        None
    }
}

/// `acc` with the trimmed `field` added, unless it is empty once trimmed.
pub open spec fn keep_field(acc: Seq<Seq<char>>, field: Seq<char>) -> Seq<Seq<char>> {
    if trim(field).len() > 0 {
        acc.push(trim(field))
    } else {
        acc
    }
}

/// The entries kept from the comma-separated fields that end before position
/// `n` of `s`, and where the field that is open at `n` starts.
pub open spec fn scan_fields(s: Seq<char>, n: nat) -> (Seq<Seq<char>>, nat)
    decreases n,
{
    if n == 0 || n > s.len() {
        (Seq::empty(), 0)
    } else {
        let prev = scan_fields(s, (n - 1) as nat);
        if s[n - 1] == ',' {
            (keep_field(prev.0, s.subrange(prev.1 as int, n - 1)), n)
        } else {
            prev
        }
    }
}

/// The comma-separated entries of `s`, each trimmed, empty ones left out.
pub open spec fn origin_list(s: Seq<char>) -> Seq<Seq<char>> {
    let last = scan_fields(s, s.len());
    keep_field(last.0, s.subrange(last.1 as int, s.len() as int))
}

proof fn lemma_scan_start(s: Seq<char>, n: nat)
    requires
        n <= s.len(),
    ensures
        scan_fields(s, n).1 <= n,
    decreases n,
{
    if n > 0 {
        lemma_scan_start(s, (n - 1) as nat);
    }
}

/// Splits a comma-separated list of origins into its trimmed, non-empty entries.
pub fn split_origins(s: &str) -> (r: Vec<String>)
    ensures
        strings_view(r@) == origin_list(s@),
{
    let v = chars_of(s);
    let n = v.len();
    let mut out: Vec<String> = Vec::new();
    let mut start: usize = 0;
    let mut i: usize = 0;
    while i < n
        invariant
            v@ == s@,
            n == v@.len(),
            i <= n,
            start <= i,
            scan_fields(s@, i as nat) == (strings_view(out@), start as nat),
        decreases n - i,
    {
        if v[i] == ',' {
            proof {
                lemma_scan_start(s@, i as nat);
            }
            let (a, b) = trim_range(&v, start, i);
            if a < b {
                let piece = s.substring_char(a, b).to_owned();
                out.push(piece);
            }
            assert(strings_view(out@) =~= keep_field(
                scan_fields(s@, i as nat).0,
                s@.subrange(start as int, i as int),
            ));
            start = i + 1;
        }
        i = i + 1;
    }
    let (a, b) = trim_range(&v, start, n);
    if a < b {
        let piece = s.substring_char(a, b).to_owned();
        out.push(piece);
    }
    assert(strings_view(out@) =~= origin_list(s@));
    out
}

impl Config {
    pub open spec fn wf(&self) -> bool {
        self.http.request_timeout.wf() && self.http.idle_timeout.wf()
    }

    /// `self` holds the values of `st`, with the given port, timeouts and body limit.
    pub open spec fn built_from(
        &self,
        st: Settings,
        port: u16,
        request_timeout: Span,
        idle_timeout: Span,
        body: usize,
    ) -> bool {
        &&& self.app_name@ == st.app_name@
        &&& self.http.host == st.host
        &&& self.http.port == port
        &&& self.http.request_timeout == request_timeout
        &&& self.http.idle_timeout == idle_timeout
        &&& self.http.body_limit_bytes == body
        &&& strings_view(self.http.allowed_origins@) == origin_list(st.cors_origins@)
        &&& self.telemetry.log_level@ == st.log_level@
    }

    /// What building from `st` gives, where the two timeouts were read as
    /// `request_timeout` and `idle_timeout`.
    pub open spec fn outcome(
        st: Settings,
        request_timeout: Option<Span>,
        idle_timeout: Option<Span>,
        r: Result<Config, ConfigError>,
    ) -> bool {
        if parse_uint(st.port@, 65535) is None {
            r matches Err(ConfigError::InvalidPort(p)) && p@ == st.port@
        } else if request_timeout is None {
            r matches Err(ConfigError::InvalidDuration(k, raw)) && k@ == "HTTP_REQUEST_TIMEOUT"@
                && raw@ == st.request_timeout@
        } else if idle_timeout is None {
            r matches Err(ConfigError::InvalidDuration(k, raw)) && k@ == "HTTP_IDLE_TIMEOUT"@
                && raw@ == st.idle_timeout@
        } else if size_value(st.body_limit@) is None {
            r matches Err(ConfigError::InvalidBodyLimit(raw)) && raw@ == st.body_limit@
        } else {
            let port = parse_uint(st.port@, 65535)->0 as u16;
            let body = size_value(st.body_limit@)->0 as usize;
            match validation_message(port, request_timeout->0, idle_timeout->0, body) {
                Some(m) => r matches Err(ConfigError::Validation(e)) && e@ == m,
                None => r matches Ok(c) && c.built_from(
                    st,
                    port,
                    request_timeout->0,
                    idle_timeout->0,
                    body,
                ),
            }
        }
    }

    /// Checks the ranges that the service accepts: a non-zero port, a request
    /// timeout of 100ms to 120s, an idle timeout of 1s to 300s and a body limit
    /// of 8KB to 32MB.
    pub fn validate(&self) -> (r: Result<(), ConfigError>)
        requires
            self.wf(),
        ensures
            r is Ok <==> validation_message(
                self.http.port,
                self.http.request_timeout,
                self.http.idle_timeout,
                self.http.body_limit_bytes,
            ) is None,
            r matches Err(e) ==> e matches ConfigError::Validation(m) && m@ == validation_message(
                self.http.port,
                self.http.request_timeout,
                self.http.idle_timeout,
                self.http.body_limit_bytes,
            )->0,
    {
        if self.http.port == 0 {
            return Err(ConfigError::Validation(String::from_str("HTTP_PORT must be > 0")));
        }
        let req = &self.http.request_timeout;
        if req.shorter_than(&Span::from_millis(100)) || Span::from_secs(120).shorter_than(req) {
            return Err(
                ConfigError::Validation(
                    String::from_str("HTTP_REQUEST_TIMEOUT must be between 100ms and 120s"),
                ),
            );
        }
        let idle = &self.http.idle_timeout;
        if idle.shorter_than(&Span::from_secs(1)) || Span::from_secs(300).shorter_than(idle) {
            return Err(
                ConfigError::Validation(
                    String::from_str("HTTP_IDLE_TIMEOUT must be between 1s and 300s"),
                ),
            );
        }
        let body = self.http.body_limit_bytes;
        if body < 8 * 1024 || body > 32 * 1024 * 1024 {
            return Err(
                ConfigError::Validation(
                    String::from_str("HTTP_BODY_LIMIT must be between 8KB and 32MB"),
                ),
            );
        }
        Ok(())
    }

    /// Builds and checks a configuration from its raw values, given what the
    /// two timeouts were read as. The first value that cannot be read is
    /// reported, in the order port, request timeout, idle timeout, body limit;
    /// then the ranges are checked.
    pub fn from_parts(
        st: Settings,
        request_timeout: Option<Span>,
        idle_timeout: Option<Span>,
    ) -> (r: Result<Config, ConfigError>)
        requires
            request_timeout matches Some(d) ==> d.wf(),
            idle_timeout matches Some(d) ==> d.wf(),
        ensures
            Config::outcome(st, request_timeout, idle_timeout, r),
            r matches Ok(c) ==> c.wf(),
    {
        let pv = chars_of(st.port.as_str());
        let port = match parse_unsigned(&pv, 0, pv.len(), 65535) {
            Some(p) => p as u16,
            None => {
                assert(pv@.subrange(0, pv@.len() as int) =~= st.port@);
                return Err(ConfigError::InvalidPort(st.port));
            }
        };
        assert(pv@.subrange(0, pv@.len() as int) =~= st.port@);
        let request_timeout = match request_timeout {
            Some(d) => d,
            None => {
                return Err(ConfigError::InvalidDuration("HTTP_REQUEST_TIMEOUT", st.request_timeout));
            }
        };
        let idle_timeout = match idle_timeout {
            Some(d) => d,
            None => {
                return Err(ConfigError::InvalidDuration("HTTP_IDLE_TIMEOUT", st.idle_timeout));
            }
        };
        let body_limit_bytes = match parse_size_bytes(st.body_limit.as_str()) {
            Some(b) => b,
            None => {
                return Err(ConfigError::InvalidBodyLimit(st.body_limit));
            }
        };
        let allowed_origins = split_origins(st.cors_origins.as_str());
        let http = HttpCfg {
            host: st.host,
            port,
            request_timeout,
            idle_timeout,
            body_limit_bytes,
            allowed_origins,
        };
        let cfg = Config {
            app_name: st.app_name,
            http,
            telemetry: TelemetryCfg { log_level: st.log_level },
        };
        match cfg.validate() {
            Ok(()) => Ok(cfg),
            Err(e) => Err(e),
        }
    }

    /// Builds and checks a configuration from its raw values, reading the two
    /// timeouts as `humantime` does; a timeout of more than
    /// `MAX_DURATION_DIGITS` digits is reported as unreadable.
    pub fn from_settings(st: Settings) -> (r: Result<Config, ConfigError>)
        ensures
            Config::outcome(
                st,
                duration_of(st.request_timeout@),
                duration_of(st.idle_timeout@),
                r,
            ),
            r matches Ok(c) ==> c.wf(),
    {
        let req = read_duration(st.request_timeout.as_str());
        let idle = read_duration(st.idle_timeout.as_str());
        Config::from_parts(st, req, idle)
    }
}

} // verus!
