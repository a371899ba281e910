//! Cross-Origin Resource Sharing.

use vstd::prelude::*;
#[allow(unused_imports)]
use vstd::string::StringExecFns;

use crate::middleware::headers::{push_append, push_insert, HeaderUpdate};
#[allow(unused_imports)]
use crate::middleware::headers::{updates, UpdateView};
use crate::routing::router::{header_value_accepts, lists};
#[allow(unused_imports)]
use crate::routing::router::is_header_text;
#[allow(unused_imports)]
use crate::text::{decimal, join, optional_text, texts};
use crate::text::{copy_text, decimal_text, join_texts, same};

verus! {

/// Which origins a [`Cors`] layer accepts.
#[derive(Debug)]
pub enum AllowOrigin {
    /// Reflect nothing: every origin is answered with `*`.
    Any,
    /// Accept exactly the listed origins, echoing back the one that matched.
    List(Vec<String>),
}

/// The accepted origins as plain values.
pub enum OriginsView {
    /// See [`AllowOrigin::Any`].
    Any,
    /// See [`AllowOrigin::List`].
    List(Seq<Seq<char>>),
}

impl View for AllowOrigin {
    type V = OriginsView;

    open spec fn view(&self) -> OriginsView {
        match self {
            AllowOrigin::Any => OriginsView::Any,
            AllowOrigin::List(list) => OriginsView::List(texts(list@)),
        }
    }
}

/// Rejected [`Cors`] configurations, reported when the builder is finished.
#[derive(Debug)]
pub enum CorsConfigError {
    /// A wildcard origin cannot be combined with credentials: a browser rejects the response
    /// instead of sending the cookie.
    CredentialsWithAnyOrigin,
    /// An origin, method or header value was not valid for an HTTP header.
    InvalidValue {
        /// Which builder input was rejected.
        field: String,
        /// The offending value.
        value: String,
    },
    /// No origin was listed, so the layer could never accept a cross-origin request.
    NoOrigin,
}

/// A configuration error with its texts as sequences of characters.
pub enum ConfigErrorView {
    /// See [`CorsConfigError::CredentialsWithAnyOrigin`].
    CredentialsWithAnyOrigin,
    /// See [`CorsConfigError::InvalidValue`].
    InvalidValue {
        /// Which builder input was rejected.
        field: Seq<char>,
        /// The offending value.
        value: Seq<char>,
    },
    /// See [`CorsConfigError::NoOrigin`].
    NoOrigin,
}

impl View for CorsConfigError {
    type V = ConfigErrorView;

    open spec fn view(&self) -> ConfigErrorView {
        match self {
            CorsConfigError::CredentialsWithAnyOrigin => ConfigErrorView::CredentialsWithAnyOrigin,
            CorsConfigError::InvalidValue { field, value } => ConfigErrorView::InvalidValue {
                field: field@,
                value: value@,
            },
            CorsConfigError::NoOrigin => ConfigErrorView::NoOrigin,
        }
    }
}

impl CorsConfigError {
    /// The error's text.
    pub fn message(&self) -> (r: String)
        ensures
            r@ == match self@ {
                ConfigErrorView::CredentialsWithAnyOrigin =>
                "`allow_credentials(true)` cannot be combined with `allow_origin_any()`; list the permitted origins explicitly"@,
                ConfigErrorView::InvalidValue { field, value } => "`"@ + field + "` value `"@ + value
                    + "` is not a valid header value"@,
                ConfigErrorView::NoOrigin =>
                "no allowed origin configured; call `allow_origin`, `allow_origins` or `allow_origin_any`"@,
            },
    {
        match self {
            CorsConfigError::CredentialsWithAnyOrigin => copy_text(
                "`allow_credentials(true)` cannot be combined with `allow_origin_any()`; list the permitted origins explicitly",
            ),
            CorsConfigError::InvalidValue { field, value } => {
                let mut text = copy_text("`");
                text.append(field.as_str());
                text.append("` value `");
                text.append(value.as_str());
                text.append("` is not a valid header value");
                text
            },
            CorsConfigError::NoOrigin => copy_text(
                "no allowed origin configured; call `allow_origin`, `allow_origins` or `allow_origin_any`",
            ),
        }
    }
}

/// Answers CORS preflight requests and decorates cross-origin responses.
#[derive(Debug)]
pub struct Cors {
    origins: AllowOrigin,
    methods: String,
    allowed_headers: Option<String>,
    exposed_headers: Option<String>,
    credentials: bool,
    max_age: Option<String>,
}

/// A CORS layer with its parts as plain values.
pub struct CorsView {
    /// The accepted origins.
    pub origins: OriginsView,
    /// The value of `Access-Control-Allow-Methods`.
    pub methods: Seq<char>,
    /// The value of `Access-Control-Allow-Headers`, or what the caller asks for.
    pub allowed_headers: Option<Seq<char>>,
    /// The value of `Access-Control-Expose-Headers`.
    pub exposed_headers: Option<Seq<char>>,
    /// Whether credentials are allowed.
    pub credentials: bool,
    /// The value of `Access-Control-Max-Age`.
    pub max_age: Option<Seq<char>>,
}

impl View for Cors {
    type V = CorsView;

    closed spec fn view(&self) -> CorsView {
        CorsView {
            origins: self.origins@,
            methods: self.methods@,
            allowed_headers: optional_text(self.allowed_headers),
            exposed_headers: optional_text(self.exposed_headers),
            credentials: self.credentials,
            max_age: optional_text(self.max_age),
        }
    }
}

/// The `Access-Control-Allow-Origin` value to answer an origin with, if it is accepted.
pub open spec fn accepted_origin(cors: CorsView, origin: Option<Seq<char>>) -> Option<Seq<char>> {
    match cors.origins {
        OriginsView::Any => Some("*"@),
        OriginsView::List(list) => match origin {
            Some(origin) => if list.contains(origin) {
                Some(origin)
            } else {
                None
            },
            None => None,
        },
    }
}

/// The header changes that mark a response as shared with an origin.
pub open spec fn decoration(cors: CorsView, origin: Seq<char>) -> Seq<UpdateView> {
    let first = seq![UpdateView::Insert("access-control-allow-origin"@, origin)];
    let second = if cors.credentials {
        first.push(UpdateView::Insert("access-control-allow-credentials"@, "true"@))
    } else {
        first
    };
    let third = match cors.exposed_headers {
        Some(exposed) => second.push(
            UpdateView::Insert("access-control-expose-headers"@, exposed),
        ),
        None => second,
    };
    match cors.origins {
        OriginsView::List(_) => third.push(UpdateView::Append("vary"@, "origin"@)),
        OriginsView::Any => third,
    }
}

/// The header changes of the answer to a preflight request.
pub open spec fn preflight_headers(
    cors: CorsView,
    requested: Option<Seq<char>>,
    origin: Seq<char>,
) -> Seq<UpdateView> {
    let first = seq![UpdateView::Insert("access-control-allow-methods"@, cors.methods)];
    let allowed = match cors.allowed_headers {
        Some(allowed) => Some(allowed),
        None => requested,
    };
    let second = match allowed {
        Some(allowed) => first.push(UpdateView::Insert("access-control-allow-headers"@, allowed)),
        None => first,
    };
    let third = match cors.max_age {
        Some(max_age) => second.push(UpdateView::Insert("access-control-max-age"@, max_age)),
        None => second,
    };
    third + decoration(cors, origin)
}

/// What the layer does with a request.
#[derive(Debug)]
pub enum CorsAction {
    /// Run the request and leave the response as it is.
    PassThrough,
    /// Answer 204 with an empty body and these headers; nothing further runs.
    Preflight(Vec<HeaderUpdate>),
    /// Run the request and change the response's headers.
    Decorate(Vec<HeaderUpdate>),
}

/// What the layer reads of a request.
#[derive(Debug)]
pub struct CorsRequest {
    /// The method.
    pub method: String,
    /// The `Origin` header.
    pub origin: Option<String>,
    /// Whether the request has an `Access-Control-Request-Method` header.
    pub asks_for_method: bool,
    /// The `Access-Control-Request-Headers` header.
    pub requested_headers: Option<String>,
}

/// Whether a request is a preflight: `OPTIONS` carrying `Access-Control-Request-Method`.
pub open spec fn is_preflight_request(request: CorsRequest) -> bool {
    request.method@ == "OPTIONS"@ && request.asks_for_method
}

/// Whether an action is the one a layer takes for a request.
pub open spec fn is_action(cors: CorsView, request: CorsRequest, action: CorsAction) -> bool {
    match accepted_origin(cors, optional_text(request.origin)) {
        None => action is PassThrough,
        Some(origin) => if is_preflight_request(request) {
            action matches CorsAction::Preflight(list) && updates(list@) == preflight_headers(
                cors,
                optional_text(request.requested_headers),
                origin,
            )
        } else {
            action matches CorsAction::Decorate(list) && updates(list@) == decoration(cors, origin)
        },
    }
}

/// Whether a request is a CORS preflight: `OPTIONS` carrying `Access-Control-Request-Method`.
fn is_preflight(request: &CorsRequest) -> (r: bool)
    ensures
        r == is_preflight_request(*request),
{
    same(request.method.as_str(), "OPTIONS") && request.asks_for_method
}

impl Cors {
    /// Start configuring a CORS layer.
    pub fn builder() -> (r: CorsBuilder)
        ensures
            r@ == empty_builder(),
    {
        let r = CorsBuilder {
            origins: None,
            methods: Vec::new(),
            allowed_headers: None,
            allow_headers_any: false,
            exposed_headers: Vec::new(),
            credentials: false,
            max_age: None,
            invalid: None,
        };
        assert(r@.methods =~= Seq::empty());
        assert(r@.exposed_headers =~= Seq::empty());
        r
    }

    /// Accept any origin and any request header, for a public read-only API.
    ///
    /// Credentials stay off: a wildcard origin cannot carry them.
    pub fn permissive() -> (r: Self)
        ensures
            r@ == (CorsView {
                origins: OriginsView::Any,
                methods: "GET, POST, PUT, PATCH, DELETE, HEAD, OPTIONS"@,
                allowed_headers: None,
                exposed_headers: None,
                credentials: false,
                max_age: None,
            }),
    {
        Cors {
            origins: AllowOrigin::Any,
            methods: copy_text("GET, POST, PUT, PATCH, DELETE, HEAD, OPTIONS"),
            allowed_headers: None,
            exposed_headers: None,
            credentials: false,
            max_age: None,
        }
    }

    /// The `Access-Control-Allow-Origin` value to answer `origin` with, if it is accepted.
    pub fn allow_origin_for(&self, origin: &Option<String>) -> (r: Option<String>)
        ensures
            optional_text(r) == accepted_origin(self@, optional_text(*origin)),
    {
        match &self.origins {
            AllowOrigin::Any => Some(copy_text("*")),
            AllowOrigin::List(allowed) => match origin {
                Some(origin) => if lists(allowed, origin.as_str()) {
                    Some(origin.clone())
                } else {
                    None
                },
                None => None,
            },
        }
    }

    fn decorate(&self, list: &mut Vec<HeaderUpdate>, allow_origin: &str)
        ensures
            updates(final(list)@) == updates(old(list)@) + decoration(self@, allow_origin@),
    {
        let ghost before = updates(list@);
        push_insert(list, "access-control-allow-origin", allow_origin);
        if self.credentials {
            push_insert(list, "access-control-allow-credentials", "true");
        }
        if let Some(exposed) = &self.exposed_headers {
            push_insert(list, "access-control-expose-headers", exposed.as_str());
        }
        if let AllowOrigin::List(_) = &self.origins {
            push_append(list, "vary", "origin");
        }
        assert(updates(list@) =~= before + decoration(self@, allow_origin@));
    }

    /// Decide what happens to a request.
    ///
    /// A request whose origin is not accepted, or that is not cross-origin at all, passes through
    /// untouched so that a same-origin caller sees the normal response.
    pub fn decide(&self, request: &CorsRequest) -> (r: CorsAction)
        ensures
            is_action(self@, *request, r),
    {
        match self.allow_origin_for(&request.origin) {
            None => CorsAction::PassThrough,
            Some(origin) => {
                let mut list: Vec<HeaderUpdate> = Vec::new();
                assert(updates(list@) =~= Seq::empty());
                if is_preflight(request) {
                    push_insert(&mut list, "access-control-allow-methods", self.methods.as_str());
                    match &self.allowed_headers {
                        Some(allowed) => {
                            push_insert(
                                &mut list,
                                "access-control-allow-headers",
                                allowed.as_str(),
                            );
                        },
                        None => {
                            if let Some(requested) = &request.requested_headers {
                                push_insert(
                                    &mut list,
                                    "access-control-allow-headers",
                                    requested.as_str(),
                                );
                            }
                        },
                    }
                    if let Some(max_age) = &self.max_age {
                        push_insert(&mut list, "access-control-max-age", max_age.as_str());
                    }
                    self.decorate(&mut list, origin.as_str());
                    assert(updates(list@) =~= preflight_headers(
                        self@,
                        optional_text(request.requested_headers),
                        origin@,
                    ));
                    CorsAction::Preflight(list)
                } else {
                    self.decorate(&mut list, origin.as_str());
                    assert(updates(list@) =~= decoration(self@, origin@));
                    CorsAction::Decorate(list)
                }
            },
        }
    }
}

/// Builder for [`Cors`].
#[derive(Debug)]
pub struct CorsBuilder {
    origins: Option<AllowOrigin>,
    methods: Vec<String>,
    allowed_headers: Option<Vec<String>>,
    allow_headers_any: bool,
    exposed_headers: Vec<String>,
    credentials: bool,
    max_age: Option<u64>,
    invalid: Option<CorsConfigError>,
}

/// A builder with its parts as plain values.
#[verifier::ext_equal]
pub struct BuilderView {
    /// The accepted origins, if any were configured.
    pub origins: Option<OriginsView>,
    /// The methods.
    pub methods: Seq<Seq<char>>,
    /// The request headers, if any were configured.
    pub allowed_headers: Option<Seq<Seq<char>>>,
    /// Whether any request header is allowed.
    pub allow_headers_any: bool,
    /// The response headers a script may read.
    pub exposed_headers: Seq<Seq<char>>,
    /// Whether credentials are allowed.
    pub credentials: bool,
    /// How long a preflight result may be cached, in seconds.
    pub max_age: Option<u64>,
    /// The first origin that was not a valid header value.
    pub invalid: Option<ConfigErrorView>,
}

/// The builder nothing was configured on.
pub open spec fn empty_builder() -> BuilderView {
    BuilderView {
        origins: None,
        methods: Seq::empty(),
        allowed_headers: None,
        allow_headers_any: false,
        exposed_headers: Seq::empty(),
        credentials: false,
        max_age: None,
        invalid: None,
    }
}

impl View for CorsBuilder {
    type V = BuilderView;

    closed spec fn view(&self) -> BuilderView {
        BuilderView {
            origins: match self.origins {
                Some(origins) => Some(origins@),
                None => None,
            },
            methods: texts(self.methods@),
            allowed_headers: match self.allowed_headers {
                Some(headers) => Some(texts(headers@)),
                None => None,
            },
            allow_headers_any: self.allow_headers_any,
            exposed_headers: texts(self.exposed_headers@),
            credentials: self.credentials,
            max_age: self.max_age,
            invalid: match self.invalid {
                Some(error) => Some(error@),
                None => None,
            },
        }
    }
}

/// The origins of a list that are valid header values, up to `to`.
pub open spec fn valid_origins(origins: Seq<Seq<char>>, to: int) -> Seq<Seq<char>>
    decreases to,
{
    if to <= 0 || to > origins.len() {
        Seq::empty()
    } else {
        let before = valid_origins(origins, to - 1);
        if is_header_text(origins[to - 1]) {
            before.push(origins[to - 1])
        } else {
            before
        }
    }
}

/// The first origin of a list, at or after `from`, that is not a valid header value.
pub open spec fn first_invalid(origins: Seq<Seq<char>>, from: int) -> Option<Seq<char>>
    decreases origins.len() - from,
{
    if from < 0 || from >= origins.len() {
        None
    } else if !is_header_text(origins[from]) {
        Some(origins[from])
    } else {
        first_invalid(origins, from + 1)
    }
}

/// A builder after accepting some origins.
pub open spec fn with_origins(builder: BuilderView, origins: Seq<Seq<char>>) -> BuilderView {
    let before = match builder.origins {
        Some(OriginsView::List(list)) => list,
        _ => Seq::empty(),
    };
    BuilderView {
        origins: Some(
            OriginsView::List(before + valid_origins(origins, origins.len() as int)),
        ),
        invalid: match builder.invalid {
            Some(error) => Some(error),
            None => match first_invalid(origins, 0) {
                Some(value) => Some(
                    ConfigErrorView::InvalidValue { field: "allow_origin"@, value },
                ),
                None => None,
            },
        },
        ..builder
    }
}

/// A header value made of a list, or the error that names the field.
pub open spec fn joined_header(list: Seq<Seq<char>>, field: Seq<char>) -> Result<
    Seq<char>,
    ConfigErrorView,
> {
    let value = join(list, ", "@);
    if is_header_text(value) {
        Ok(value)
    } else {
        Err(ConfigErrorView::InvalidValue { field, value })
    }
}

/// What a builder is finished into.
pub open spec fn finished(builder: BuilderView) -> Result<CorsView, ConfigErrorView> {
    if builder.invalid is Some {
        Err(builder.invalid->0)
    } else if builder.origins is None {
        Err(ConfigErrorView::NoOrigin)
    } else if builder.origins->0 is Any && builder.credentials {
        Err(ConfigErrorView::CredentialsWithAnyOrigin)
    } else if builder.origins->0 matches OriginsView::List(list) && list.len() == 0 {
        Err(ConfigErrorView::NoOrigin)
    } else {
        let methods = joined_header(builder.methods, "allow_methods"@);
        let allowed = match builder.allowed_headers {
            Some(headers) => if builder.allow_headers_any {
                None
            } else {
                Some(joined_header(headers, "allow_headers"@))
            },
            None => None,
        };
        let exposed = if builder.exposed_headers.len() == 0 {
            None
        } else {
            Some(joined_header(builder.exposed_headers, "expose_headers"@))
        };
        if methods is Err {
            Err(methods->Err_0)
        } else if allowed matches Some(Err(error)) {
            Err(allowed->0->Err_0)
        } else if exposed matches Some(Err(error)) {
            Err(exposed->0->Err_0)
        } else {
            Ok(
                CorsView {
                    origins: builder.origins->0,
                    methods: methods->Ok_0,
                    allowed_headers: match allowed {
                        Some(value) => Some(value->Ok_0),
                        None => None,
                    },
                    exposed_headers: match exposed {
                        Some(value) => Some(value->Ok_0),
                        None => None,
                    },
                    credentials: builder.credentials,
                    max_age: match builder.max_age {
                        Some(seconds) => Some(decimal(seconds as nat)),
                        None => None,
                    },
                },
            )
        }
    }
}

/// Render a comma-separated header list, reporting `field` if the result is not a valid value.
fn join_header(values: &Vec<String>, field: &str) -> (r: Result<String, CorsConfigError>)
    ensures
        match r {
            Ok(value) => joined_header(texts(values@), field@) == Ok::<
                Seq<char>,
                ConfigErrorView,
            >(value@),
            Err(error) => joined_header(texts(values@), field@) == Err::<
                Seq<char>,
                ConfigErrorView,
            >(error@),
        },
{
    let joined = join_texts(values, ", ");
    if header_value_accepts(joined.as_str()) {
        Ok(joined)
    } else {
        Err(CorsConfigError::InvalidValue { field: copy_text(field), value: joined })
    }
}

/// Append copies of the strings of a list.
fn extend_texts(list: &mut Vec<String>, more: &Vec<String>)
    ensures
        texts(final(list)@) == texts(old(list)@) + texts(more@),
{
    let mut i: usize = 0;
    assert(texts(list@) + texts(more@).take(0) =~= texts(list@));
    while i < more.len()
        invariant
            i <= more.len(),
            texts(list@) == texts(old(list)@) + texts(more@).take(i as int),
        decreases more.len() - i,
    {
        let ghost before = texts(list@);
        list.push(more[i].clone());
        i = i + 1;
        assert(texts(list@) =~= before.push(more@[i - 1]@));
        assert(texts(more@).take(i as int) =~= texts(more@).take(i - 1).push(more@[i - 1]@));
    }
    assert(texts(more@).take(i as int) =~= texts(more@));
}

impl CorsBuilder {
    /// Accept one origin, such as `https://app.lexo.cool`.
    pub fn allow_origin(self, origin: &str) -> (r: Self)
        ensures
            r@ == with_origins(self@, seq![origin@]),
    {
        let mut one: Vec<String> = Vec::new();
        one.push(copy_text(origin));
        assert(texts(one@) =~= seq![origin@]);
        self.allow_origins(&one)
    }

    /// Accept each of the listed origins.
    pub fn allow_origins(self, origins: &Vec<String>) -> (r: Self)
        ensures
            r@ == with_origins(self@, texts(origins@)),
    {
        let mut builder = self;
        let mut values: Vec<String> = Vec::new();
        let current = builder.origins.take();
        if let Some(AllowOrigin::List(list)) = current {
            values = list;
        }
        let ghost before = texts(values@);
        let ghost all = texts(origins@);
        let ghost first = builder.invalid;
        let mut i: usize = 0;
        assert(before + valid_origins(all, 0) =~= before);
        assert(match self@.origins {
            Some(OriginsView::List(list)) => list =~= before,
            _ => before =~= Seq::empty(),
        });
        while i < origins.len()
            invariant
                i <= origins.len(),
                all == texts(origins@),
                texts(values@) == before + valid_origins(all, i as int),
                builder.methods == self.methods,
                builder.allowed_headers == self.allowed_headers,
                builder.allow_headers_any == self.allow_headers_any,
                builder.exposed_headers == self.exposed_headers,
                builder.credentials == self.credentials,
                builder.max_age == self.max_age,
                first == self.invalid,
                first is Some ==> builder.invalid == first,
                first is None ==> match builder.invalid {
                    Some(error) => first_invalid(all, 0) matches Some(value) && error@ == (
                    ConfigErrorView::InvalidValue { field: "allow_origin"@, value }),
                    None => first_invalid(all, 0) == first_invalid(all, i as int),
                },
            decreases origins.len() - i,
        {
            assert(all[i as int] == origins@[i as int]@);
            let ghost now = texts(values@);
            if header_value_accepts(origins[i].as_str()) {
                values.push(origins[i].clone());
                assert(texts(values@) =~= now.push(all[i as int]));
                assert(before + valid_origins(all, i + 1) =~= (before + valid_origins(
                    all,
                    i as int,
                )).push(all[i as int]));
            } else if builder.invalid.is_none() {
                builder.invalid = Some(
                    CorsConfigError::InvalidValue {
                        field: copy_text("allow_origin"),
                        value: origins[i].clone(),
                    },
                );
            }
            i = i + 1;
        }
        builder.origins = Some(AllowOrigin::List(values));
        assert(builder@ =~= with_origins(self@, all));
        builder
    }

    /// Accept every origin, answering with `*`.
    pub fn allow_origin_any(self) -> (r: Self)
        ensures
            r@ == (BuilderView { origins: Some(OriginsView::Any), ..self@ }),
    {
        let mut builder = self;
        builder.origins = Some(AllowOrigin::Any);
        builder
    }

    /// The methods a cross-origin caller may use.
    pub fn allow_methods(self, methods: &Vec<String>) -> (r: Self)
        ensures
            r@ == (BuilderView { methods: self@.methods + texts(methods@), ..self@ }),
    {
        let mut builder = self;
        extend_texts(&mut builder.methods, methods);
        builder
    }

    /// The request headers a cross-origin caller may send.
    pub fn allow_headers(self, headers: &Vec<String>) -> (r: Self)
        ensures
            r@ == (BuilderView {
                allowed_headers: Some(
                    match self@.allowed_headers {
                        Some(before) => before + texts(headers@),
                        None => texts(headers@),
                    },
                ),
                ..self@
            }),
    {
        let mut builder = self;
        let current = builder.allowed_headers.take();
        let mut list = match current {
            Some(list) => list,
            None => Vec::new(),
        };
        let ghost before = texts(list@);
        extend_texts(&mut list, headers);
        proof {
            if self.allowed_headers is None {
                assert(before =~= Seq::empty());
                assert(before + texts(headers@) =~= texts(headers@));
            }
        }
        builder.allowed_headers = Some(list);
        builder
    }

    /// Allow whatever headers the preflight asks for, by echoing the request back.
    pub fn allow_headers_any(self) -> (r: Self)
        ensures
            r@ == (BuilderView { allow_headers_any: true, ..self@ }),
    {
        let mut builder = self;
        builder.allow_headers_any = true;
        builder
    }

    /// Response headers the caller's script is allowed to read.
    pub fn expose_headers(self, headers: &Vec<String>) -> (r: Self)
        ensures
            r@ == (BuilderView {
                exposed_headers: self@.exposed_headers + texts(headers@),
                ..self@
            }),
    {
        let mut builder = self;
        extend_texts(&mut builder.exposed_headers, headers);
        builder
    }

    /// Whether cookies and `Authorization` headers may accompany the request.
    pub fn allow_credentials(self, allow: bool) -> (r: Self)
        ensures
            r@ == (BuilderView { credentials: allow, ..self@ }),
    {
        let mut builder = self;
        builder.credentials = allow;
        builder
    }

    /// How long a browser may cache the preflight result, in seconds.
    pub fn max_age(self, seconds: u64) -> (r: Self)
        ensures
            r@ == (BuilderView { max_age: Some(seconds), ..self@ }),
    {
        let mut builder = self;
        builder.max_age = Some(seconds);
        builder
    }

    /// Finish the configuration.
    ///
    /// A missing origin, a value that cannot be rendered as a header, and credentials combined with
    /// a wildcard origin are rejected.
    pub fn build(self) -> (r: Result<Cors, CorsConfigError>)
        ensures
            match r {
                Ok(cors) => finished(self@) == Ok::<CorsView, ConfigErrorView>(cors@),
                Err(error) => finished(self@) == Err::<CorsView, ConfigErrorView>(error@),
            },
    {
        if let Some(error) = self.invalid {
            return Err(error);
        }
        let origins = match self.origins {
            Some(origins) => origins,
            None => {
                return Err(CorsConfigError::NoOrigin);
            },
        };
        match &origins {
            AllowOrigin::Any => {
                if self.credentials {
                    return Err(CorsConfigError::CredentialsWithAnyOrigin);
                }
            },
            AllowOrigin::List(values) => {
                if values.len() == 0 {
                    return Err(CorsConfigError::NoOrigin);
                }
            },
        }
        let methods = match join_header(&self.methods, "allow_methods") {
            Ok(methods) => methods,
            Err(error) => {
                return Err(error);
            },
        };
        let allowed_headers = if self.allow_headers_any {
            None
        } else {
            match &self.allowed_headers {
                Some(headers) => match join_header(headers, "allow_headers") {
                    Ok(value) => Some(value),
                    Err(error) => {
                        return Err(error);
                    },
                },
                None => None,
            }
        };
        let exposed_headers = if self.exposed_headers.len() == 0 {
            None
        } else {
            match join_header(&self.exposed_headers, "expose_headers") {
                Ok(value) => Some(value),
                Err(error) => {
                    return Err(error);
                },
            }
        };
        let max_age = match self.max_age {
            Some(seconds) => Some(decimal_text(seconds)),
            None => None,
        };
        Ok(
            Cors {
                origins,
                methods,
                allowed_headers,
                exposed_headers,
                credentials: self.credentials,
                max_age,
            },
        )
    }
}

/// No layer that was built answers a wildcard together with credentials.
pub proof fn a_built_layer_never_shares_credentials_with_everyone(builder: BuilderView)
    requires
        finished(builder) is Ok,
    ensures
        !(finished(builder)->Ok_0.origins is Any && finished(builder)->Ok_0.credentials),
{
}

/// A response is marked as shared with an origin only if that origin is listed, and then it also
/// says that it varies by origin.
pub proof fn only_listed_origins_are_echoed(
    cors: CorsView,
    list: Seq<Seq<char>>,
    origin: Option<Seq<char>>,
)
    requires
        cors.origins == OriginsView::List(list),
        accepted_origin(cors, origin) is Some,
    ensures
        origin == accepted_origin(cors, origin),
        list.contains(origin->0),
        decoration(cors, origin->0).contains(UpdateView::Append("vary"@, "origin"@)),
{
    let all = decoration(cors, origin->0);
    assert(all.last() == UpdateView::Append("vary"@, "origin"@));
    assert(all[all.len() - 1] == all.last());
}

/// Whether changes set a header to a value.
pub open spec fn sets(list: Seq<UpdateView>, name: Seq<char>, value: Seq<char>) -> bool {
    list.contains(UpdateView::Insert(name, value))
}

/// Whether the layer shares responses with a request's origin.
pub open spec fn shares_with(cors: CorsView, request: CorsRequest) -> bool {
    match cors.origins {
        OriginsView::Any => true,
        OriginsView::List(list) => request.origin is Some && list.contains(request.origin->0@),
    }
}

/// The changes of an action.
pub open spec fn action_updates(action: CorsAction) -> Seq<UpdateView> {
    match action {
        CorsAction::PassThrough => Seq::empty(),
        CorsAction::Preflight(list) => updates(list@),
        CorsAction::Decorate(list) => updates(list@),
    }
}

proof fn lemma_names_differ()
    ensures
        "access-control-allow-origin"@.len() == 27,
        "access-control-allow-credentials"@.len() == 32,
        "access-control-expose-headers"@.len() == 29,
        "access-control-allow-methods"@.len() == 28,
        "access-control-allow-headers"@.len() == 28,
        "access-control-max-age"@.len() == 22,
        "access-control-allow-methods"@ != "access-control-allow-headers"@,
{
    reveal_strlit("access-control-allow-origin");
    reveal_strlit("access-control-allow-credentials");
    reveal_strlit("access-control-expose-headers");
    reveal_strlit("access-control-allow-methods");
    reveal_strlit("access-control-allow-headers");
    reveal_strlit("access-control-max-age");
    assert("access-control-allow-methods"@[21] == 'm');
    assert("access-control-allow-headers"@[21] == 'h');
}

/// A request is passed through untouched exactly where its origin is not accepted, and answered as a
/// preflight exactly where it is one: `OPTIONS` that asks for a method.
pub proof fn only_accepted_origins_are_answered(
    cors: CorsView,
    request: CorsRequest,
    action: CorsAction,
)
    requires
        is_action(cors, request, action),
    ensures
        action is PassThrough <==> !shares_with(cors, request),
        shares_with(cors, request) ==> (action is Preflight <==> request.method@ == "OPTIONS"@
            && request.asks_for_method),
{
}

/// Every response that is shared names the origin, or everyone; allows credentials, exposes headers
/// and varies by origin exactly where the layer is configured so, preflight or not.
pub proof fn a_shared_response_says_what_is_configured(
    cors: CorsView,
    request: CorsRequest,
    action: CorsAction,
    value: Seq<char>,
)
    requires
        is_action(cors, request, action),
        shares_with(cors, request),
    ensures
        sets(action_updates(action), "access-control-allow-origin"@, value) <==> value == (
        match cors.origins {
            OriginsView::Any => "*"@,
            OriginsView::List(_) => request.origin->0@,
        }),
        sets(action_updates(action), "access-control-allow-credentials"@, value)
            <==> cors.credentials && value == "true"@,
        sets(action_updates(action), "access-control-expose-headers"@, value)
            <==> cors.exposed_headers == Some(value),
        action_updates(action).contains(UpdateView::Append("vary"@, value)) <==> cors.origins is List
            && value == "origin"@,
{
    lemma_names_differ();
    let origin = accepted_origin(cors, optional_text(request.origin))->0;
    let all = action_updates(action);
    let marks = decoration(cors, origin);
    lemma_decoration(cors, origin, value);
    if action is Preflight {
        let requested = optional_text(request.requested_headers);
        let head = all.take(all.len() - marks.len());
        assert(all == preflight_headers(cors, requested, origin));
        assert forall|update: UpdateView| all.contains(update) && (update matches UpdateView::Insert(
            name,
            _,
        ) ==> name != "access-control-allow-methods"@ && name != "access-control-allow-headers"@
            && name != "access-control-max-age"@) implies marks.contains(update) by {
            let i = choose|i: int| 0 <= i < all.len() && all[i] == update;
            if i >= head.len() {
                assert(marks[i - head.len()] == update);
            }
        }
        assert forall|update: UpdateView| marks.contains(update) implies all.contains(update) by {
            let i = choose|i: int| 0 <= i < marks.len() && marks[i] == update;
            assert(all[head.len() + i] == update);
        }
    }
}

proof fn lemma_decoration(cors: CorsView, origin: Seq<char>, value: Seq<char>)
    ensures
        sets(decoration(cors, origin), "access-control-allow-origin"@, value) <==> value == origin,
        sets(decoration(cors, origin), "access-control-allow-credentials"@, value)
            <==> cors.credentials && value == "true"@,
        sets(decoration(cors, origin), "access-control-expose-headers"@, value)
            <==> cors.exposed_headers == Some(value),
        decoration(cors, origin).contains(UpdateView::Append("vary"@, value)) <==> cors.origins is List
            && value == "origin"@,
{
    lemma_names_differ();
    let all = decoration(cors, origin);
    let second: int = if cors.credentials {
        2
    } else {
        1
    };
    assert(all[0] == UpdateView::Insert("access-control-allow-origin"@, origin));
    if cors.credentials {
        assert(all[1] == UpdateView::Insert("access-control-allow-credentials"@, "true"@));
    }
    if cors.exposed_headers is Some {
        assert(all[second] == UpdateView::Insert(
            "access-control-expose-headers"@,
            cors.exposed_headers->0,
        ));
    }
    if cors.origins is List {
        assert(all[all.len() - 1] == UpdateView::Append("vary"@, "origin"@));
    }
}

/// The answer to a preflight names the methods, how long it may be kept, and the headers that are
/// allowed: those configured, or else those the client asks for. No other response does.
pub proof fn a_preflight_is_told_what_is_allowed(
    cors: CorsView,
    request: CorsRequest,
    action: CorsAction,
    value: Seq<char>,
)
    requires
        is_action(cors, request, action),
    ensures
        sets(action_updates(action), "access-control-allow-methods"@, value) <==> action is Preflight
            && value == cors.methods,
        sets(action_updates(action), "access-control-max-age"@, value) <==> action is Preflight
            && cors.max_age == Some(value),
        sets(action_updates(action), "access-control-allow-headers"@, value) <==> action is Preflight
            && (cors.allowed_headers == Some(value) || (cors.allowed_headers is None
            && request.requested_headers is Some && request.requested_headers->0@ == value)),
{
    lemma_names_differ();
    let all = action_updates(action);
    if action is Preflight {
        let origin = accepted_origin(cors, optional_text(request.origin))->0;
        let marks = decoration(cors, origin);
        let head = all.len() - marks.len();
        assert(all == preflight_headers(cors, optional_text(request.requested_headers), origin));
        assert(all[0] == UpdateView::Insert("access-control-allow-methods"@, cors.methods));
        let allowed = if cors.allowed_headers is Some {
            cors.allowed_headers
        } else {
            optional_text(request.requested_headers)
        };
        if allowed is Some {
            assert(all[1] == UpdateView::Insert("access-control-allow-headers"@, allowed->0));
        }
        if cors.max_age is Some {
            assert(all[head - 1] == UpdateView::Insert("access-control-max-age"@, cors.max_age->0));
        }
        assert forall|i: int| head <= i < all.len() implies #[trigger] all[i] == marks[i - head] by {}
    }
}

/// A layer is built exactly where an origin is accepted, every origin and list is a valid header
/// value, and credentials are not shared with everyone. It allows and exposes what was configured.
pub proof fn a_layer_is_what_was_configured(builder: BuilderView)
    ensures
        finished(builder) is Ok <==> {
            &&& builder.invalid is None
            &&& builder.origins is Some
            &&& !(builder.origins->0 is Any && builder.credentials)
            &&& (builder.origins->0 matches OriginsView::List(list) ==> list.len() > 0)
            &&& is_header_text(join(builder.methods, ", "@))
            &&& is_header_text(join(builder.exposed_headers, ", "@))
                || builder.exposed_headers.len() == 0
            &&& (builder.allowed_headers matches Some(list) ==> builder.allow_headers_any
                || is_header_text(join(list, ", "@)))
        },
        finished(builder) matches Ok(cors) ==> {
            &&& Some(cors.origins) == builder.origins
            &&& cors.credentials == builder.credentials
            &&& cors.methods == join(builder.methods, ", "@)
            &&& cors.exposed_headers is Some <==> builder.exposed_headers.len() > 0
            &&& cors.exposed_headers is Some ==> cors.exposed_headers->0 == join(
                builder.exposed_headers,
                ", "@,
            )
            &&& cors.allowed_headers is Some <==> builder.allowed_headers is Some
                && !builder.allow_headers_any
            &&& cors.allowed_headers is Some ==> cors.allowed_headers->0 == join(
                builder.allowed_headers->0,
                ", "@,
            )
            &&& cors.max_age is Some <==> builder.max_age is Some
            &&& cors.max_age is Some ==> cors.max_age->0 == decimal(builder.max_age->0 as nat)
        },
{
}

/// Accepting origins adds the valid ones, in order, to those accepted before by name, and keeps the
/// first one that is not valid.
pub proof fn origins_are_accepted_one_by_one(builder: BuilderView, origins: Seq<Seq<char>>, k: int)
    requires
        0 <= k < origins.len(),
    ensures
        with_origins(builder, origins).origins matches Some(OriginsView::List(list)) && (
        list.contains(origins[k]) || !is_header_text(origins[k])),
        builder.origins matches Some(OriginsView::List(before)) ==> (with_origins(
            builder,
            origins,
        ).origins matches Some(OriginsView::List(list)) && before.is_prefix_of(list)),
        (forall|i: int| 0 <= i < origins.len() ==> is_header_text(#[trigger] origins[i]))
            ==> with_origins(builder, origins).invalid == builder.invalid,
        builder.invalid is None && !is_header_text(origins[k]) && (forall|i: int|
            0 <= i < k ==> is_header_text(#[trigger] origins[i])) ==> with_origins(
            builder,
            origins,
        ).invalid == Some(
            ConfigErrorView::InvalidValue { field: "allow_origin"@, value: origins[k] },
        ),
        builder.invalid is Some ==> with_origins(builder, origins).invalid == builder.invalid,
{
    let valid = valid_origins(origins, origins.len() as int);
    let before = match builder.origins {
        Some(OriginsView::List(list)) => list,
        _ => Seq::empty(),
    };
    lemma_valid_origin(origins, origins.len() as int, k);
    if is_header_text(origins[k]) {
        let i = choose|i: int| 0 <= i < valid.len() && valid[i] == origins[k];
        assert((before + valid)[before.len() + i] == origins[k]);
    }
    assert((before + valid).subrange(0, before.len() as int) =~= before);
    if forall|i: int| 0 <= i < origins.len() ==> is_header_text(#[trigger] origins[i]) {
        lemma_all_valid(origins, 0);
    }
    if !is_header_text(origins[k]) && (forall|i: int|
        0 <= i < k ==> is_header_text(#[trigger] origins[i])) {
        lemma_first_invalid(origins, 0, k);
    }
}

proof fn lemma_valid_origin(origins: Seq<Seq<char>>, to: int, k: int)
    requires
        0 <= k < to <= origins.len(),
    ensures
        is_header_text(origins[k]) ==> valid_origins(origins, to).contains(origins[k]),
    decreases to,
{
    let before = valid_origins(origins, to - 1);
    let all = valid_origins(origins, to);
    if k < to - 1 {
        lemma_valid_origin(origins, to - 1, k);
        if is_header_text(origins[k]) {
            let i = choose|i: int| 0 <= i < before.len() && before[i] == origins[k];
            assert(all[i] == origins[k]);
        }
    } else if is_header_text(origins[k]) {
        assert(all[before.len() as int] == origins[k]);
    }
}

proof fn lemma_all_valid(origins: Seq<Seq<char>>, from: int)
    requires
        forall|i: int| 0 <= i < origins.len() ==> is_header_text(#[trigger] origins[i]),
    ensures
        first_invalid(origins, from) is None,
    decreases origins.len() - from,
{
    if 0 <= from < origins.len() {
        lemma_all_valid(origins, from + 1);
    }
}

proof fn lemma_first_invalid(origins: Seq<Seq<char>>, from: int, k: int)
    requires
        0 <= from <= k < origins.len(),
        !is_header_text(origins[k]),
        forall|i: int| from <= i < k ==> is_header_text(#[trigger] origins[i]),
    ensures
        first_invalid(origins, from) == Some(origins[k]),
    decreases k - from,
{
    if from < k {
        lemma_first_invalid(origins, from + 1, k);
    }
}

/// Only valid origins are accepted by name, besides those accepted before.
pub proof fn only_valid_origins_are_accepted(origins: Seq<Seq<char>>, to: int, origin: Seq<char>)
    ensures
        valid_origins(origins, to).contains(origin) ==> origins.contains(origin) && is_header_text(
            origin,
        ),
    decreases to,
{
    if 0 < to <= origins.len() && valid_origins(origins, to).contains(origin) {
        let all = valid_origins(origins, to);
        let before = valid_origins(origins, to - 1);
        let i = choose|i: int| 0 <= i < all.len() && all[i] == origin;
        if i < before.len() {
            assert(before[i] == origin);
            only_valid_origins_are_accepted(origins, to - 1, origin);
        } else {
            assert(origins[to - 1] == origin);
        }
    }
}

/// Nothing is shared with anyone before something is configured.
pub proof fn nothing_is_configured_at_first()
    ensures
        empty_builder().origins is None,
        empty_builder().methods.len() == 0,
        empty_builder().allowed_headers is None,
        !empty_builder().allow_headers_any,
        empty_builder().exposed_headers.len() == 0,
        !empty_builder().credentials,
        empty_builder().max_age is None,
        empty_builder().invalid is None,
{
}

} // verus!
