use vstd::prelude::*;

verus! {

/// The canned response that a request gets.
#[derive(Clone, Copy, Debug, PartialEq, Eq, Structural)]
pub enum Route {
    /// `GET /`: the home page, status 200.
    Home,
    /// Anything else: the not-found page, status 404.
    NotFound,
}

/// The route of a request with method `method` and path `path`.
pub open spec fn route_of(method: Seq<char>, path: Seq<char>) -> Route {
    if method == "GET"@ && path == "/"@ {
        Route::Home
    } else {
        Route::NotFound
    }
}

/// Whether two strings hold the same characters.
pub fn same_text(a: &str, b: &str) -> (r: bool)
    ensures
        r == (a@ == b@),
{
    let n = a.unicode_len();
    if n != b.unicode_len() {
        return false;
    }
    let mut i: usize = 0;
    while i < n
        invariant
            n == a@.len(),
            n == b@.len(),
            i <= n,
            a@.subrange(0, i as int) == b@.subrange(0, i as int),
        decreases n - i,
    {
        if a.get_char(i) != b.get_char(i) {
            assert(a@[i as int] != b@[i as int]);
            return false;
        }
        assert(a@.subrange(0, i + 1) =~= a@.subrange(0, i as int).push(a@[i as int]));
        assert(b@.subrange(0, i + 1) =~= b@.subrange(0, i as int).push(b@[i as int]));
        i = i + 1;
    }
    assert(a@ =~= a@.subrange(0, n as int));
    assert(b@ =~= b@.subrange(0, n as int));
    true
}

/// Picks the response for a request: the home page for `GET /`, the
/// not-found page otherwise.
pub fn route(method: &str, path: &str) -> (r: Route)
    ensures
        r == route_of(method@, path@),
{
    if same_text(method, "GET") && same_text(path, "/") {
        Route::Home
    } else {
        Route::NotFound
    }
}

impl Route {
    /// The file whose contents make the response body.
    pub fn file_name(&self) -> (r: &'static str)
        ensures
            *self == Route::Home ==> r@ == "hello.html"@,
            *self == Route::NotFound ==> r@ == "404.html"@,
    {
        match self {
            Route::Home => "hello.html",
            Route::NotFound => "404.html",
        }
    }

    /// The response's HTTP status code.
    pub fn status(&self) -> (r: u16)
        ensures
            *self == Route::Home ==> r == 200,
            *self == Route::NotFound ==> r == 404,
    {
        match self {
            Route::Home => 200,
            Route::NotFound => 404,
        }
    }
}

} // verus!
