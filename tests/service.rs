use workpool::config::{Config, Location, Server};
use workpool::routing::{route, same_text, Route};

fn server(address: &str, port: i64) -> Server {
    Server { thread_count: 4, listen_address: address.to_string(), port }
}

#[test]
fn get_root_is_home() {
    assert_eq!(route("GET", "/"), Route::Home);
}

#[test]
fn other_paths_are_not_found() {
    assert_eq!(route("GET", "/sleep"), Route::NotFound);
    assert_eq!(route("GET", ""), Route::NotFound);
    assert_eq!(route("GET", "//"), Route::NotFound);
    assert_eq!(route("POST", "/"), Route::NotFound);
    assert_eq!(route("get", "/"), Route::NotFound);
}

#[test]
fn route_files_and_statuses() {
    assert_eq!(Route::Home.file_name(), "hello.html");
    assert_eq!(Route::Home.status(), 200);
    assert_eq!(Route::NotFound.file_name(), "404.html");
    assert_eq!(Route::NotFound.status(), 404);
}

#[test]
fn same_text_compares_characters() {
    assert!(same_text("", ""));
    assert!(same_text("héllo", "héllo"));
    assert!(!same_text("hello", "hellO"));
    assert!(!same_text("hell", "hello"));
}

#[test]
fn bind_address_joins_address_and_port() {
    assert_eq!(server("127.0.0.1", 8080).bind_address(), "127.0.0.1:8080");
    assert_eq!(server("0.0.0.0", 0).bind_address(), "0.0.0.0:0");
    assert_eq!(server("localhost", 7).bind_address(), "localhost:7");
    assert_eq!(server("::1", 65535).bind_address(), "::1:65535");
}

#[test]
fn bind_address_extreme_ports() {
    assert_eq!(server("h", -5).bind_address(), "h:-5");
    assert_eq!(server("h", i64::MAX).bind_address(), "h:9223372036854775807");
    assert_eq!(server("h", i64::MIN).bind_address(), "h:-9223372036854775808");
}

#[test]
fn config_holds_its_parts() {
    let c = Config {
        server: server("127.0.0.1", 3000),
        locations: vec![Location { path: "/".to_string() }],
    };
    assert_eq!(c.server.thread_count, 4);
    assert_eq!(c.locations[0].path, "/");
}
