//! The configuration the pipeline runs with, and the rules that check it.
//! Durations are in milliseconds and sizes in bytes; reading them from text
//! is left to the caller.
use vstd::prelude::*;
use crate::matcher::{regex_set_valid, regex_valid, MetricFilter, Selector};
use crate::sender::BatchLimits;
use crate::sink::SinkPolicy;
use crate::text::{chars_of, extend, string_from_chars, strings_view};
use crate::transcompiler::ScraperFormat;

verus! {

/// Why a configuration is refused.
#[derive(Clone, Copy, Debug, PartialEq, Eq, Structural)]
pub enum ConfigError {
    /// A URL that does not start with `http://` or `https://`.
    BadUrl,
    /// A scraper format other than `prometheus` or `sensision`.
    BadFormat,
    /// A regular expression that does not compile.
    BadPattern,
}

/// Gives the name of a configured item.
pub trait Named {
    fn name(&self) -> String;
}

pub open spec fn http_prefix() -> Seq<char> {
    seq!['h', 't', 't', 'p', ':', '/', '/']
}

pub open spec fn https_prefix() -> Seq<char> {
    seq!['h', 't', 't', 'p', 's', ':', '/', '/']
}

pub open spec fn has_prefix(s: Seq<char>, p: Seq<char>) -> bool {
    p.len() <= s.len() && s.subrange(0, p.len() as int) == p
}

/// Whether `url` names the `http` or `https` scheme.
pub open spec fn web_url(url: Seq<char>) -> bool {
    has_prefix(url, http_prefix()) || has_prefix(url, https_prefix())
}

fn starts_with_chars(s: &Vec<char>, p: &Vec<char>) -> (r: bool)
    ensures
        r == has_prefix(s@, p@),
{
    if p.len() > s.len() {
        return false;
    }
    let mut i: usize = 0;
    while i < p.len()
        invariant
            p.len() <= s.len(),
            0 <= i <= p.len(),
            forall|k: int| 0 <= k < i ==> s@[k] == p@[k],
        decreases p.len() - i,
    {
        if s[i] != p[i] {
            assert(s@.subrange(0, p@.len() as int)[i as int] != p@[i as int]);
            return false;
        }
        i = i + 1;
    }
    assert(s@.subrange(0, p@.len() as int) =~= p@);
    true
}

/// Whether `url` names the `http` or `https` scheme.
pub fn is_web_url(url: &str) -> (r: bool)
    ensures
        r == web_url(url@),
{
    let s = chars_of(url);
    let mut http: Vec<char> = Vec::new();
    http.push('h');
    http.push('t');
    http.push('t');
    http.push('p');
    let mut https = http.clone();
    https.push('s');
    http.push(':');
    http.push('/');
    http.push('/');
    https.push(':');
    https.push('/');
    https.push('/');
    assert(http@ =~= http_prefix());
    assert(https@ =~= https_prefix());
    starts_with_chars(&s, &http) || starts_with_chars(&s, &https)
}

/// A scraper: an endpoint fetched every `period_ms`.
pub struct Scraper {
    pub name: String,
    pub url: String,
    pub period_ms: u64,
    pub format: ScraperFormat,
    /// Canonical lines must match one of these expressions to be kept.
    pub metrics: Option<MetricFilter>,
    pub headers: Vec<(String, String)>,
    /// Labels added to each line.
    pub labels: Vec<(String, String)>,
    /// Keys of the labels removed from each line.
    pub filtered_labels: Vec<String>,
    /// Threads fetching for this scraper.
    pub pool: usize,
}

impl Named for Scraper {
    fn name(&self) -> String {
        self.name.clone()
    }
}

pub open spec fn format_of(name: Option<Seq<char>>) -> Option<ScraperFormat> {
    match name {
        None => Some(ScraperFormat::Prometheus),
        Some(n) => if n == seq!['p', 'r', 'o', 'm', 'e', 't', 'h', 'e', 'u', 's'] {
            Some(ScraperFormat::Prometheus)
        } else if n == seq!['s', 'e', 'n', 's', 'i', 's', 'i', 'o', 'n'] {
            Some(ScraperFormat::Sensision)
        } else {
            None
        },
    }
}

/// Whether the metric patterns, if any, compile as a set.
pub open spec fn metrics_ok(metrics: Option<Vec<String>>) -> bool {
    match metrics {
        None => true,
        Some(ps) => regex_set_valid(strings_view(ps@)),
    }
}

impl Scraper {
    /// A scraper from its settings: the URL must be `http` or `https`; the
    /// format, `prometheus` when not given, must be known; the metric
    /// patterns must compile; the pool is 1 when not given.
    pub fn new(
        name: String,
        url: String,
        period_ms: u64,
        format: Option<String>,
        metrics: Option<Vec<String>>,
        headers: Vec<(String, String)>,
        labels: Vec<(String, String)>,
        filtered_labels: Vec<String>,
        pool: Option<usize>,
    ) -> (r: Result<Scraper, ConfigError>)
        ensures
            !web_url(url@) ==> r == Err::<Scraper, ConfigError>(ConfigError::BadUrl),
            web_url(url@) && format_of(
                match format {
                    Some(f) => Some(f@),
                    None => None,
                },
            ) is None ==> r == Err::<Scraper, ConfigError>(ConfigError::BadFormat),
            r matches Ok(s) ==> {
                &&& s.name == name
                &&& s.url == url
                &&& s.period_ms == period_ms
                &&& Some(s.format) == format_of(
                    match format {
                        Some(f) => Some(f@),
                        None => None,
                    },
                )
                &&& s.headers == headers
                &&& s.labels == labels
                &&& s.filtered_labels == filtered_labels
                &&& s.pool == (match pool {
                    Some(p) => p,
                    None => 1,
                })
                &&& (metrics is None <==> s.metrics is None)
                &&& (s.metrics matches Some(m) ==> metrics matches Some(ps) && m.patterns()
                    == strings_view(ps@))
            },
            r matches Err(e) ==> e == ConfigError::BadUrl || e == ConfigError::BadFormat || (e
                == ConfigError::BadPattern && metrics is Some),
            web_url(url@) && format_of(
                match format {
                    Some(f) => Some(f@),
                    None => None,
                },
            ) is Some ==> (r == Err::<Scraper, ConfigError>(ConfigError::BadPattern)
                <==> !metrics_ok(metrics)),
            r is Ok <==> web_url(url@) && format_of(
                match format {
                    Some(f) => Some(f@),
                    None => None,
                },
            ) is Some && metrics_ok(metrics),
    {
        if !is_web_url(url.as_str()) {
            return Err(ConfigError::BadUrl);
        }
        let fmt = match &format {
            None => ScraperFormat::Prometheus,
            Some(f) => match ScraperFormat::parse(f.as_str()) {
                Some(x) => x,
                None => {
                    return Err(ConfigError::BadFormat);
                },
            },
        };
        let filter = match metrics {
            None => None,
            Some(ps) => match MetricFilter::new(ps) {
                Some(m) => Some(m),
                None => {
                    return Err(ConfigError::BadPattern);
                },
            },
        };
        let pool = match pool {
            Some(p) => p,
            None => 1,
        };
        Ok(
            Scraper {
                name,
                url,
                period_ms,
                format: fmt,
                metrics: filter,
                headers,
                labels,
                filtered_labels,
                pool,
            },
        )
    }
}

/// The header that carries the token when none is configured.
pub open spec fn default_token_header() -> Seq<char> {
    seq!['X', '-', 'W', 'a', 'r', 'p', '1', '0', '-', 'T', 'o', 'k', 'e', 'n']
}

/// A sink: an ingest endpoint its spool is pushed to.
pub struct Sink {
    pub name: String,
    pub url: String,
    pub token: String,
    pub token_header: String,
    /// The class of a line must match it for the sink to take the line.
    pub selector: Option<Selector>,
    pub ttl_ms: u64,
    /// Bytes the sink's spool may take.
    pub size: u64,
    /// Senders working for this sink.
    pub parallel: usize,
    pub keep_alive: bool,
    pub keep_alive_timeout_ms: u64,
}

impl Named for Sink {
    fn name(&self) -> String {
        self.name.clone()
    }
}

/// The expression a selector pattern becomes: anchored at the start.
pub open spec fn anchored(pattern: Seq<char>) -> Seq<char> {
    seq!['^'] + pattern
}

/// Whether the selector, if any, compiles once anchored.
pub open spec fn selector_ok(selector: Option<String>) -> bool {
    match selector {
        None => true,
        Some(p) => regex_valid(anchored(p@)),
    }
}

impl Sink {
    /// A sink from its settings. The URL must be `http` or `https`. The selector is anchored at the start of
    /// the class and must compile; the token header is `X-Warp10-Token`, the
    /// time to live one hour, the size 1 GB, the parallelism 1, keep-alive on
    /// and its timeout one hour when not given.
    pub fn new(
        name: String,
        url: String,
        token: String,
        token_header: Option<String>,
        selector: Option<String>,
        ttl_ms: Option<u64>,
        size: Option<u64>,
        parallel: Option<usize>,
        keep_alive: Option<bool>,
        keep_alive_timeout_ms: Option<u64>,
    ) -> (r: Result<Sink, ConfigError>)
        ensures
            !web_url(url@) ==> r == Err::<Sink, ConfigError>(ConfigError::BadUrl),
            web_url(url@) ==> (r == Err::<Sink, ConfigError>(ConfigError::BadPattern)
                <==> !selector_ok(selector)),
            r is Ok <==> web_url(url@) && selector_ok(selector),
            r matches Ok(s) ==> {
                &&& s.name == name
                &&& s.url == url
                &&& s.token == token
                &&& s.token_header@ == (match token_header {
                    Some(h) => h@,
                    None => default_token_header(),
                })
                &&& (selector is None <==> s.selector is None)
                &&& (s.selector matches Some(x) ==> selector matches Some(p) && x.pattern()
                    == anchored(p@))
                &&& s.ttl_ms == (match ttl_ms {
                    Some(t) => t,
                    None => 3_600_000,
                })
                &&& s.size == (match size {
                    Some(t) => t,
                    None => 1_000_000_000,
                })
                &&& s.parallel == (match parallel {
                    Some(t) => t,
                    None => 1,
                })
                &&& s.keep_alive == (match keep_alive {
                    Some(t) => t,
                    None => true,
                })
                &&& s.keep_alive_timeout_ms == (match keep_alive_timeout_ms {
                    Some(t) => t,
                    None => 3_600_000,
                })
            },
    {
        if !is_web_url(url.as_str()) {
            return Err(ConfigError::BadUrl);
        }
        let sel = match selector {
            None => None,
            Some(p) => {
                let mut text: Vec<char> = Vec::new();
                text.push('^');
                let pc = chars_of(p.as_str());
                extend(&mut text, &pc);
                let pattern = string_from_chars(&text);
                assert(pattern@ =~= anchored(p@));
                match Selector::new(pattern.as_str()) {
                    Some(x) => Some(x),
                    None => {
                        return Err(ConfigError::BadPattern);
                    },
                }
            },
        };
        let header = match token_header {
            Some(h) => h,
            None => {
                let mut t: Vec<char> = Vec::new();
                t.push('X');
                t.push('-');
                t.push('W');
                t.push('a');
                t.push('r');
                t.push('p');
                t.push('1');
                t.push('0');
                t.push('-');
                t.push('T');
                t.push('o');
                t.push('k');
                t.push('e');
                t.push('n');
                assert(t@ =~= default_token_header());
                string_from_chars(&t)
            },
        };
        Ok(
            Sink {
                name,
                url,
                token,
                token_header: header,
                selector: sel,
                ttl_ms: match ttl_ms {
                    Some(t) => t,
                    None => 3_600_000,
                },
                size: match size {
                    Some(t) => t,
                    None => 1_000_000_000,
                },
                parallel: match parallel {
                    Some(t) => t,
                    None => 1,
                },
                keep_alive: match keep_alive {
                    Some(t) => t,
                    None => true,
                },
                keep_alive_timeout_ms: match keep_alive_timeout_ms {
                    Some(t) => t,
                    None => 3_600_000,
                },
            },
        )
    }

    /// What the sink keeps in its spool.
    pub fn policy(&self) -> (r: SinkPolicy)
        ensures
            r.name == self.name,
            r.ttl_ms == self.ttl_ms,
            r.max_size == self.size,
    {
        SinkPolicy { name: self.name.clone(), ttl_ms: self.ttl_ms, max_size: self.size }
    }
}

/// Settings shared by the whole pipeline.
pub struct Parameters {
    pub scan_period_ms: u64,
    pub sink_dir: String,
    pub source_dir: String,
    /// Bytes per spool file written by a scraper, and per request.
    pub batch_size: u64,
    /// Files per request.
    pub batch_count: u64,
    pub timeout_ms: u64,
    pub router_parallel: usize,
    pub filesystem_threads: usize,
}

impl Parameters {
    /// The limits of one request body.
    pub fn limits(&self) -> (r: BatchLimits)
        ensures
            r.batch_count == self.batch_count,
            r.batch_size == self.batch_size,
    {
        BatchLimits { batch_count: self.batch_count, batch_size: self.batch_size }
    }
}

/// The whole configuration.
pub struct Conf {
    pub scrapers: Vec<Scraper>,
    pub sinks: Vec<Sink>,
    /// Labels the router adds to every line.
    pub labels: Vec<(String, String)>,
    pub parameters: Parameters,
}

} // verus!
