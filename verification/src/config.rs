//! The configuration with which everything starts: where the authority is,
//! which directory is watched, how often, and by which policy.

use vstd::prelude::*;
use crate::error::ConfigError;
use crate::identity::IdentitySet;
use crate::policy::{PolicyView, RenewalPolicy, identity_views};

verus! {

/// The error of the `url` crate's parser. It is carried from the parser to
/// the place where it is put into words, and never looked into.
#[verifier::external_type_specification]
#[verifier::external_body]
pub struct ExParseError(url::ParseError);

/// What `url::Url::parse` makes of `input`: the serialization of the URL
/// that it reads, or `None` where it refuses `input`.
pub uninterp spec fn parsed_url(input: Seq<char>) -> Option<Seq<char>>;

/// Calls `url::Url::parse` on `input` and hands back the serialization of
/// the URL, or the error. Nothing is claimed of either but that it is what
/// `url::Url::parse` makes of this input, whenever it is asked.
#[verifier::external_body]
fn parse_url(input: &str) -> (r: Result<String, url::ParseError>)
    ensures
        match r {
            Ok(text) => parsed_url(input@) == Some(text@),
            Err(_) => parsed_url(input@) is None,
        },
{
    match url::Url::parse(input) {
        Ok(parsed) => Ok(String::from(parsed)),
        Err(error) => Err(error),
    }
}

/// Calls the `Display` of `url::ParseError`: the words in which the `url`
/// crate describes the error. Nothing is claimed of them.
#[verifier::external_body]
fn describe_parse_error(error: &url::ParseError) -> String {
    error.to_string()
}

/// The URL of the certificate authority, as the `url` crate writes it after
/// it has parsed it.
#[derive(Debug)]
pub struct AuthorityUrl {
    text: String,
}

impl View for AuthorityUrl {
    type V = Seq<char>;

    closed spec fn view(&self) -> Seq<char> {
        self.text@
    }
}

impl AuthorityUrl {
    /// Parses `input` as an absolute URL. It succeeds exactly where the
    /// `url` crate accepts `input`, and then holds the URL as that crate
    /// writes it.
    pub fn parse(input: &str) -> (r: Result<AuthorityUrl, ConfigError>)
        ensures
            match r {
                Ok(url) => parsed_url(input@) == Some(url@),
                Err(error) => parsed_url(input@) is None && error is InvalidUrl,
            },
    {
        match parse_url(input) {
            Ok(text) => Ok(AuthorityUrl { text }),
            Err(error) => Err(ConfigError::InvalidUrl { reason: describe_parse_error(&error) }),
        }
    }

    /// The URL as text.
    pub fn as_str(&self) -> (r: &str)
        ensures
            r@ == self@,
    {
        self.text.as_str()
    }
}

impl Clone for AuthorityUrl {
    fn clone(&self) -> (r: AuthorityUrl)
        ensures
            r@ == self@,
    {
        AuthorityUrl { text: self.text.clone() }
    }
}

/// What a configuration holds, as plain mathematical values.
pub struct ConfigView {
    pub authority_url: Seq<char>,
    pub directory: Seq<char>,
    pub tick_interval_secs: u64,
    pub request_timeout_secs: u64,
    pub grace_secs: u64,
    pub policy: PolicyView,
}

/// A configuration that was found valid. Fixed once made.
#[derive(Debug)]
pub struct Config {
    authority_url: AuthorityUrl,
    directory: String,
    tick_interval_secs: u64,
    request_timeout_secs: u64,
    grace_secs: u64,
    policy: RenewalPolicy,
}

impl View for Config {
    type V = ConfigView;

    closed spec fn view(&self) -> ConfigView {
        ConfigView {
            authority_url: self.authority_url@,
            directory: self.directory@,
            tick_interval_secs: self.tick_interval_secs,
            request_timeout_secs: self.request_timeout_secs,
            grace_secs: self.grace_secs,
            policy: self.policy@,
        }
    }
}

impl Config {
    #[verifier::type_invariant]
    spec fn ticking(self) -> bool {
        self.tick_interval_secs >= 1
    }

    /// The configuration made of the given parts. A tick interval of zero
    /// seconds is turned down; nothing else is.
    pub fn new(
        authority_url: AuthorityUrl,
        directory: String,
        tick_interval_secs: u64,
        request_timeout_secs: u64,
        grace_secs: u64,
        policy: RenewalPolicy,
    ) -> (r: Result<Config, ConfigError>)
        ensures
            tick_interval_secs == 0 ==> r == Err::<Config, ConfigError>(ConfigError::ZeroInterval),
            tick_interval_secs != 0 ==> r is Ok && r->Ok_0@ == (ConfigView {
                authority_url: authority_url@,
                directory: directory@,
                tick_interval_secs,
                request_timeout_secs,
                grace_secs,
                policy: policy@,
            }),
    {
        if tick_interval_secs == 0 {
            Err(ConfigError::ZeroInterval)
        } else {
            Ok(
                Config {
                    authority_url,
                    directory,
                    tick_interval_secs,
                    request_timeout_secs,
                    grace_secs,
                    policy,
                },
            )
        }
    }

    /// The URL of the certificate authority.
    pub fn authority_url(&self) -> (r: &AuthorityUrl)
        ensures
            r@ == self@.authority_url,
    {
        &self.authority_url
    }

    /// The directory that is watched.
    pub fn directory(&self) -> (r: &String)
        ensures
            r@ == self@.directory,
    {
        &self.directory
    }

    /// The seconds between two ticks. At least one.
    pub fn tick_interval_secs(&self) -> (r: u64)
        ensures
            r == self@.tick_interval_secs,
            r >= 1,
    {
        proof {
            use_type_invariant(self);
        }
        self.tick_interval_secs
    }

    /// The seconds after which a request to the authority counts as failed.
    pub fn request_timeout_secs(&self) -> (r: u64)
        ensures
            r == self@.request_timeout_secs,
    {
        self.request_timeout_secs
    }

    /// The seconds granted to what is in flight once cancellation is asked
    /// for.
    pub fn grace_secs(&self) -> (r: u64)
        ensures
            r == self@.grace_secs,
    {
        self.grace_secs
    }

    /// The renewal policy.
    pub fn policy(&self) -> (r: &RenewalPolicy)
        ensures
            r@ == self@.policy,
    {
        &self.policy
    }
}

/// A configuration as it was read, with nothing checked yet.
#[derive(Debug)]
pub struct RawConfig {
    pub authority_url: String,
    pub directory: String,
    pub tick_interval_secs: u64,
    pub request_timeout_secs: u64,
    pub grace_secs: u64,
    pub threshold_secs: u64,
    pub max_concurrent: usize,
    pub backoff_base_secs: u64,
    pub max_attempts: u32,
    pub maintained: Vec<IdentitySet>,
}

impl RawConfig {
    /// The first fault of the raw values, the URL apart: a tick interval of
    /// zero, then a policy that lets nothing be in flight, then one that
    /// grants no attempt.
    pub open spec fn fault(self) -> Option<ConfigError> {
        if self.tick_interval_secs == 0 {
            Some(ConfigError::ZeroInterval)
        } else if self.max_concurrent == 0 {
            Some(ConfigError::ZeroConcurrency)
        } else if self.max_attempts == 0 {
            Some(ConfigError::ZeroAttempts)
        } else {
            None
        }
    }

    /// The configuration that the raw values make with the URL `url`.
    pub open spec fn accepted(self, url: Seq<char>) -> ConfigView {
        ConfigView {
            authority_url: url,
            directory: self.directory@,
            tick_interval_secs: self.tick_interval_secs,
            request_timeout_secs: self.request_timeout_secs,
            grace_secs: self.grace_secs,
            policy: PolicyView {
                threshold_secs: self.threshold_secs,
                max_concurrent: self.max_concurrent,
                backoff_base_secs: self.backoff_base_secs,
                max_attempts: self.max_attempts,
                maintained: identity_views(self.maintained@),
            },
        }
    }

    /// The configuration that the raw values make with `authority_url` in
    /// the place of their own URL. It is made exactly where the values have
    /// no fault, and the first fault is reported otherwise.
    pub fn with_authority(self, authority_url: AuthorityUrl) -> (r: Result<Config, ConfigError>)
        ensures
            match self.fault() {
                Some(error) => r == Err::<Config, ConfigError>(error),
                None => r is Ok && r->Ok_0@ == self.accepted(authority_url@),
            },
    {
        if self.tick_interval_secs == 0 {
            return Err(ConfigError::ZeroInterval);
        }
        let policy = match RenewalPolicy::new(
            self.threshold_secs,
            self.max_concurrent,
            self.backoff_base_secs,
            self.max_attempts,
            self.maintained,
        ) {
            Ok(policy) => policy,
            Err(error) => {
                return Err(error);
            },
        };
        Config::new(
            authority_url,
            self.directory,
            self.tick_interval_secs,
            self.request_timeout_secs,
            self.grace_secs,
            policy,
        )
    }

    /// The configuration that the raw values make, the URL being examined
    /// first. A URL that the `url` crate refuses is reported as `InvalidUrl`;
    /// with a URL that it accepts, the outcome is that of
    /// [`RawConfig::with_authority`] with the URL as that crate writes it.
    pub fn validate(self) -> (r: Result<Config, ConfigError>)
        ensures
            match parsed_url(self.authority_url@) {
                None => r is Err && r->Err_0 is InvalidUrl,
                Some(url) => match self.fault() {
                    Some(error) => r == Err::<Config, ConfigError>(error),
                    None => r is Ok && r->Ok_0@ == self.accepted(url),
                },
            },
    {
        match AuthorityUrl::parse(self.authority_url.as_str()) {
            Ok(authority_url) => self.with_authority(authority_url),
            Err(error) => Err(error),
        }
    }
}

} // verus!
