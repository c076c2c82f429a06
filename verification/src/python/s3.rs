//! The location of, and connection configuration for, an object on S3.
use vstd::prelude::*;

verus! {

/// The region of a bucket: one that is known by its name, or a custom one with its endpoint.
#[derive(Clone, Debug, PartialEq)]
pub enum S3Region {
    Known(String),
    Custom { region: String, endpoint: String },
}

/// Where credentials come from.
#[derive(Clone, Copy, Debug, PartialEq, Eq, Structural)]
pub enum CredentialSource {
    /// Requests are not signed.
    Anonymous,
    /// The keys that were passed.
    Explicit,
    /// The ambient AWS configuration.
    Ambient,
}

/// The location of, and connection configuration for, an object on S3 (or an S3-compatible
/// object store such as Minio).
///
/// Credentials come from exactly one source, and the modes are mutually exclusive: explicit
/// keys (and optionally a session token) for signed requests, or anonymous for unsigned
/// requests, but not both; with neither the ambient AWS configuration is used. The credentials
/// themselves are not kept here.
#[derive(Clone, PartialEq)]
pub struct S3Source {
    bucket: String,
    key: String,
    region: S3Region,
    credentials: CredentialSource,
    path_style: bool,
}

/// Why there is no connection to an object.
#[derive(Clone, Debug, PartialEq)]
pub enum S3Error {
    /// Anonymous requests were asked for, and credentials passed.
    Conflict,
    /// There are no credentials, for this reason.
    Credentials(String),
    /// The region is none, for this reason.
    Region(String),
    /// There is neither a region nor an endpoint.
    NoRegion,
    /// The bucket cannot be used, for this reason.
    Bucket(String),
}

impl S3Error {
    /// The error in words.
    pub open spec fn text(self) -> Seq<char> {
        match self {
            S3Error::Conflict => {
                "anonymous=True is mutually exclusive with access_key/secret_key/session_token: pass anonymous=True for unsigned requests, or the explicit credentials, not both"@
            },
            S3Error::Credentials(e) => "S3 credentials: "@ + e@,
            S3Error::Region(e) => "S3 region: "@ + e@,
            S3Error::NoRegion => {
                "an S3 region (or a custom endpoint) is required: pass region= or endpoint=, or set AWS_REGION"@
            },
            S3Error::Bucket(e) => "S3 bucket: "@ + e@,
        }
    }

    /// The error in words.
    pub fn message(&self) -> (r: String)
        ensures
            r@ == self.text(),
    {
        match self {
            S3Error::Conflict => {
                "anonymous=True is mutually exclusive with access_key/secret_key/session_token: pass anonymous=True for unsigned requests, or the explicit credentials, not both".to_owned()
            },
            S3Error::Credentials(e) => {
                let mut r = "S3 credentials: ".to_owned();
                r.append(e.as_str());
                r
            },
            S3Error::Region(e) => {
                let mut r = "S3 region: ".to_owned();
                r.append(e.as_str());
                r
            },
            S3Error::NoRegion => {
                "an S3 region (or a custom endpoint) is required: pass region= or endpoint=, or set AWS_REGION".to_owned()
            },
            S3Error::Bucket(e) => {
                let mut r = "S3 bucket: ".to_owned();
                r.append(e.as_str());
                r
            },
        }
    }
}

/// Whether there is a region that is known by this name.
pub uninterp spec fn known_region(name: Seq<char>) -> bool;

/// Looks a region up by its name, by `parse` into an `awsregion::Region`: nothing where it is
/// known, the region and endpoint of a custom one where it is not.
///
/// Not proved: that every name parses, that whether a name is known depends on the name alone,
/// and that a name that is not known becomes a custom region of which it is both the region and
/// the endpoint. Which names are known is not said.
#[verifier::external_body]
fn parse_region(name: &str) -> (r: Result<Option<(String, String)>, String>)
    ensures
        match r {
            Ok(None) => known_region(name@),
            Ok(Some(c)) => !known_region(name@) && c.0@ == name@ && c.1@ == name@,
            Err(_) => false,
        },
{
    match name.parse::<awsregion::Region>() {
        Ok(awsregion::Region::Custom { region, endpoint }) => Ok(Some((region, endpoint))),
        Ok(_) => Ok(None),
        Err(e) => Err(e.to_string()),
    }
}

/// The text that the `Debug` format gives for the region that a name is parsed into.
pub uninterp spec fn region_debug(name: Seq<char>) -> Seq<char>;

/// Formats a region, by the `Debug` of the `awsregion::Region` that its name is parsed into.
///
/// Not proved: that the text depends on the name alone. What it is for a name is not said.
#[verifier::external_body]
fn debug_region(name: &str) -> (r: String)
    ensures
        r@ == region_debug(name@),
{
    match name.parse::<awsregion::Region>() {
        Ok(region) => format!("{:?}", region),
        Err(e) => e.to_string(),
    }
}

/// The text that the `Debug` format gives for a string: quoted, and escaped where it has to be.
pub uninterp spec fn quoted(text: Seq<char>) -> Seq<char>;

/// Formats a string, by the `Debug` of std's `str`.
///
/// Not proved: that the result depends on the string alone. Which characters are escaped, and
/// how, is not said.
#[verifier::external_body]
fn quote(text: &str) -> (r: String)
    ensures
        r@ == quoted(text@),
{
    format!("{:?}", text)
}

/// Where credentials come from, given what was asked for and passed.
pub open spec fn source_of(
    anonymous: bool,
    access_key: Option<String>,
    secret_key: Option<String>,
    session_token: Option<String>,
) -> Result<CredentialSource, S3Error> {
    if anonymous && (access_key is Some || secret_key is Some || session_token is Some) {
        Err(S3Error::Conflict)
    } else if anonymous {
        Ok(CredentialSource::Anonymous)
    } else if access_key is Some || secret_key is Some {
        Ok(CredentialSource::Explicit)
    } else {
        Ok(CredentialSource::Ambient)
    }
}

/// Credentials come from one source: anonymous requests exclude anything that was passed, passed
/// keys exclude the ambient configuration, and a session token alone does not make keys.
pub proof fn lemma_source_of(
    anonymous: bool,
    access_key: Option<String>,
    secret_key: Option<String>,
    session_token: Option<String>,
)
    ensures
        match source_of(anonymous, access_key, secret_key, session_token) {
            Ok(CredentialSource::Anonymous) => {
                &&& anonymous
                &&& access_key is None
                &&& secret_key is None
                &&& session_token is None
            },
            Ok(CredentialSource::Explicit) => {
                &&& !anonymous
                &&& access_key is Some || secret_key is Some
            },
            Ok(CredentialSource::Ambient) => {
                &&& !anonymous
                &&& access_key is None
                &&& secret_key is None
            },
            Err(e) => {
                &&& e == S3Error::Conflict
                &&& anonymous
                &&& access_key is Some || secret_key is Some || session_token is Some
            },
        },
{
}

/// Where credentials come from, given what was asked for and passed.
pub fn credential_source(
    anonymous: bool,
    access_key: &Option<String>,
    secret_key: &Option<String>,
    session_token: &Option<String>,
) -> (r: Result<CredentialSource, S3Error>)
    ensures
        r == source_of(anonymous, *access_key, *secret_key, *session_token),
{
    if anonymous && (access_key.is_some() || secret_key.is_some() || session_token.is_some()) {
        return Err(S3Error::Conflict);
    }
    if anonymous {
        Ok(CredentialSource::Anonymous)
    } else if access_key.is_some() || secret_key.is_some() {
        Ok(CredentialSource::Explicit)
    } else {
        Ok(CredentialSource::Ambient)
    }
}

/// The region that was passed, or else the one that `AWS_REGION` gives, or else the one that
/// `AWS_DEFAULT_REGION` gives.
pub open spec fn first_region(
    region: Option<String>,
    aws_region: Option<String>,
    aws_default_region: Option<String>,
) -> Option<String> {
    match region {
        Some(r) => Some(r),
        None => match aws_region {
            Some(r) => Some(r),
            None => aws_default_region,
        },
    }
}

/// A region that was passed is taken before any that the environment gives, and `AWS_REGION`
/// before `AWS_DEFAULT_REGION`.
pub proof fn lemma_first_region(a: Option<String>, b: Option<String>, c: Option<String>)
    ensures
        a is Some ==> first_region(a, b, c) == a,
        a is None && b is Some ==> first_region(a, b, c) == b,
        a is None && b is None ==> first_region(a, b, c) == c,
{
}

/// A region is determined by the endpoint and the name: an endpoint makes a custom region there,
/// called `us-east-1` where it has no name; a name alone is the region that is known by it, or a
/// custom one of which it is the name and the endpoint.
pub proof fn lemma_region_for(
    x: S3Region,
    endpoint: Option<String>,
    region: Option<String>,
)
    requires
        x.is_for(endpoint, region),
    ensures
        endpoint is Some || region is Some,
        match x {
            S3Region::Known(n) => {
                &&& endpoint is None
                &&& known_region(n@)
                &&& n@ == (region->0)@
            },
            S3Region::Custom { region: n, endpoint: e } => match (endpoint, region) {
                (Some(p), Some(r)) => e == p && n@ == r@,
                (Some(p), None) => e == p && n@ == "us-east-1"@,
                (None, Some(r)) => !known_region(r@) && n@ == r@ && e@ == r@,
                (None, None) => false,
            },
        },
{
}

impl S3Region {
    /// Whether this is the region for an endpoint and a region name.
    pub open spec fn is_for(self, endpoint: Option<String>, region: Option<String>) -> bool {
        match endpoint {
            Some(e) => self matches S3Region::Custom { region: r, endpoint: x } && x == e && r@ == (
            match region {
                Some(n) => n@,
                None => "us-east-1"@,
            }),
            None => match region {
                Some(n) => if known_region(n@) {
                    self matches S3Region::Known(x) && x@ == n@
                } else {
                    self matches S3Region::Custom { region: r, endpoint: x } && r@ == n@ && x@
                        == n@
                },
                None => false,
            },
        }
    }

    /// The region, formatted for debugging.
    pub open spec fn debug_text(self) -> Seq<char> {
        match self {
            S3Region::Known(name) => region_debug(name@),
            S3Region::Custom { region, endpoint } => "Custom { region: "@ + quoted(region@)
                + ", endpoint: "@ + quoted(endpoint@) + " }"@,
        }
    }

    /// The region, formatted for debugging: the variant of a region that is known, the region
    /// and endpoint of a custom one.
    pub fn debug(&self) -> (r: String)
        ensures
            r@ == self.debug_text(),
    {
        match self {
            S3Region::Known(name) => debug_region(name.as_str()),
            S3Region::Custom { region, endpoint } => {
                let mut r = "Custom { region: ".to_owned();
                r.append(quote(region.as_str()).as_str());
                r.append(", endpoint: ");
                r.append(quote(endpoint.as_str()).as_str());
                r.append(" }");
                r
            },
        }
    }

    /// The region of this name, given what looking it up gave: nothing where it is known, the
    /// region and endpoint of a custom one where it is not.
    pub fn named(name: String, custom: Option<(String, String)>) -> (r: S3Region)
        ensures
            r == (match custom {
                None => S3Region::Known(name),
                Some(c) => S3Region::Custom { region: c.0, endpoint: c.1 },
            }),
    {
        match custom {
            None => S3Region::Known(name),
            Some((region, endpoint)) => S3Region::Custom { region, endpoint },
        }
    }

    /// The region for an endpoint and a region name: an endpoint makes a custom region; a name
    /// alone is looked up.
    pub fn resolve(endpoint: Option<String>, region: Option<String>) -> (r: Result<
        S3Region,
        S3Error,
    >)
        ensures
            match r {
                Ok(x) => x.is_for(endpoint, region),
                Err(e) => e == S3Error::NoRegion && endpoint is None && region is None,
            },
    {
        match (endpoint, region) {
            (Some(endpoint), region) => {
                let region = match region {
                    Some(n) => n,
                    None => "us-east-1".to_owned(),
                };
                Ok(S3Region::Custom { region, endpoint })
            },
            (None, Some(n)) => match parse_region(n.as_str()) {
                Ok(custom) => Ok(S3Region::named(n, custom)),
                Err(e) => Err(S3Error::Region(e)),
            },
            (None, None) => Err(S3Error::NoRegion),
        }
    }
}

impl S3Source {
    /// The name of the bucket.
    pub closed spec fn bucket_name(self) -> Seq<char> {
        self.bucket@
    }

    /// The key of the object in the bucket.
    pub closed spec fn object(self) -> Seq<char> {
        self.key@
    }

    /// The region of the bucket.
    pub closed spec fn location(self) -> S3Region {
        self.region
    }

    /// Where credentials come from.
    pub closed spec fn source(self) -> CredentialSource {
        self.credentials
    }

    /// Whether the bucket is addressed by the path rather than the host.
    pub closed spec fn by_path(self) -> bool {
        self.path_style
    }

    /// The object `key` of the bucket in a region. A custom region implies path-style
    /// addressing unless overridden.
    pub fn in_region(
        bucket: &str,
        key: &str,
        region: S3Region,
        credentials: CredentialSource,
        path_style: Option<bool>,
    ) -> (r: S3Source)
        ensures
            r.bucket_name() == bucket@,
            r.object() == key@,
            r.location() == region,
            r.source() == credentials,
            r.by_path() == (match path_style {
                Some(p) => p,
                None => region is Custom,
            }),
    {
        let path_style = match path_style {
            Some(p) => p,
            None => match region {
                S3Region::Custom { .. } => true,
                S3Region::Known(_) => false,
            },
        };
        S3Source { bucket: bucket.to_owned(), key: key.to_owned(), region, credentials, path_style }
    }

    /// The object `key` of the bucket. `credentials` is where the credentials came from, or why
    /// there are none. The region falls back to `aws_region` and `aws_default_region`, what the
    /// environment gives, where it is not passed.
    pub fn new(
        bucket: &str,
        key: &str,
        region: Option<String>,
        endpoint: Option<String>,
        path_style: Option<bool>,
        aws_region: Option<String>,
        aws_default_region: Option<String>,
        credentials: Result<CredentialSource, S3Error>,
    ) -> (r: Result<S3Source, S3Error>)
        ensures
            match r {
                Ok(s) => {
                    &&& credentials == Ok::<CredentialSource, S3Error>(s.source())
                    &&& s.bucket_name() == bucket@
                    &&& s.object() == key@
                    &&& s.location().is_for(
                        endpoint,
                        first_region(region, aws_region, aws_default_region),
                    )
                    &&& s.by_path() == (match path_style {
                        Some(p) => p,
                        None => s.location() is Custom,
                    })
                },
                Err(e) => match credentials {
                    Err(f) => e == f,
                    Ok(_) => {
                        &&& e == S3Error::NoRegion
                        &&& endpoint is None
                        &&& first_region(region, aws_region, aws_default_region) is None
                    },
                },
            },
    {
        let credentials = match credentials {
            Ok(c) => c,
            Err(e) => {
                return Err(e);
            },
        };
        let region = match region {
            Some(r) => Some(r),
            None => match aws_region {
                Some(r) => Some(r),
                None => aws_default_region,
            },
        };
        match S3Region::resolve(endpoint, region) {
            Ok(region) => Ok(Self::in_region(bucket, key, region, credentials, path_style)),
            Err(e) => Err(e),
        }
    }

    /// Name of the bucket.
    pub fn bucket(&self) -> (r: &str)
        ensures
            r@ == self.bucket_name(),
    {
        self.bucket.as_str()
    }

    /// Key of the object in the bucket.
    pub fn key(&self) -> (r: &str)
        ensures
            r@ == self.object(),
    {
        self.key.as_str()
    }

    /// The region of the bucket.
    pub fn region(&self) -> (r: &S3Region)
        ensures
            *r == self.location(),
    {
        &self.region
    }

    /// Where credentials come from.
    pub fn credentials(&self) -> (r: CredentialSource)
        ensures
            r == self.source(),
    {
        self.credentials
    }

    /// Whether the bucket is addressed by the path rather than the host.
    pub fn path_style(&self) -> (r: bool)
        ensures
            r == self.by_path(),
    {
        self.path_style
    }

    /// The source, formatted for debugging: where the object is, without anything that is
    /// secret.
    pub fn debug(&self) -> (r: String)
        ensures
            r@ == "S3Source { bucket: "@ + quoted(self.bucket_name()) + ", key: "@ + quoted(
                self.object(),
            ) + ", region: "@ + self.location().debug_text() + " }"@,
    {
        let mut r = "S3Source { bucket: ".to_owned();
        r.append(quote(self.bucket.as_str()).as_str());
        r.append(", key: ");
        r.append(quote(self.key.as_str()).as_str());
        r.append(", region: ");
        r.append(self.region.debug().as_str());
        r.append(" }");
        r
    }

    /// The source in words, without anything that is secret.
    pub fn repr(&self) -> (r: String)
        ensures
            r@ == "S3Source(bucket: "@ + self.bucket_name() + ", key: "@ + self.object() + ")"@,
    {
        let mut r = "S3Source(bucket: ".to_owned();
        r.append(self.bucket.as_str());
        r.append(", key: ");
        r.append(self.key.as_str());
        r.append(")");
        r
    }
}

/// The words for an error say which part of the connection is at fault, and why.
pub proof fn lemma_s3_error_text(e: String)
    ensures
        S3Error::Credentials(e).text() == "S3 credentials: "@ + e@,
        S3Error::Region(e).text() == "S3 region: "@ + e@,
        S3Error::Bucket(e).text() == "S3 bucket: "@ + e@,
        S3Error::NoRegion.text()
            == "an S3 region (or a custom endpoint) is required: pass region= or endpoint=, or set AWS_REGION"@,
        S3Error::Conflict.text()
            == "anonymous=True is mutually exclusive with access_key/secret_key/session_token: pass anonymous=True for unsigned requests, or the explicit credentials, not both"@,
{
}

/// A region is shown by the name of its variant, and a custom one with its name and endpoint.
pub proof fn lemma_region_debug_text(name: String, endpoint: String)
    ensures
        S3Region::Known(name).debug_text() == region_debug(name@),
        (S3Region::Custom { region: name, endpoint }).debug_text() == "Custom { region: "@ + quoted(
            name@,
        ) + ", endpoint: "@ + quoted(endpoint@) + " }"@,
{
}

} // verus!
