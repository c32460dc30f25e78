use zettel_web::config::{Config, ConfigBuilder};

fn same(a: &Config, b: &Config) -> bool {
    a.rootdir == b.rootdir && a.staticdir == b.staticdir && a.template_dir == b.template_dir && a.ip == b.ip && a.port == b.port
}

#[test]
fn config_builder_uses_default() {
    let def = Config::default();
    let built = ConfigBuilder::new().build();
    assert!(same(&def, &built));
}

#[test]
fn config_builder_sets_root() {
    let built = ConfigBuilder::new().set_root("rootdir").build();
    assert_eq!("rootdir", built.rootdir);
}

#[test]
fn config_builder_sets_longer_root() {
    let built = ConfigBuilder::new().set_root("path/to/rootdir/").build();
    assert_eq!("path/to/rootdir", built.rootdir);
}

#[test]
fn builder_sets_addr_tuple() {
    let addr_source = ([1, 1, 1, 1], 8080);
    let built = Config::build().set_address(addr_source.0, addr_source.1).build();
    assert_eq!((built.ip, built.port), addr_source);
}

#[test]
fn builder_sets_ip() {
    let addr_source = ([1, 1, 1, 1], 8080);
    let built = Config::build().set_ip(addr_source.0).build();
    assert_eq!(built.ip, addr_source.0);
    assert_eq!(built.port, 7878);
}

#[test]
fn builder_sets_port() {
    let addr_source = ([1, 1, 1, 1], 8080);
    let built = Config::build().set_port(addr_source.1).build();
    assert_eq!(built.port, addr_source.1);
    assert_eq!(built.ip, [0, 0, 0, 0]);
}

#[test]
fn builder_sources_env_root() {
    let test_val = "test/root/dir";
    let c = ConfigBuilder::new().source_env(Some(test_val.to_string()), None, None).build();
    assert_eq!(test_val, c.rootdir);
}

#[test]
fn builder_sources_env_static() {
    let test_val = "test/static/dir";
    let c = ConfigBuilder::new().source_env(None, Some(test_val.to_string()), None).build();
    assert_eq!(test_val, c.staticdir);
}

#[test]
fn builder_sources_without_env() {
    let default_config = Config::default();
    let c = ConfigBuilder::new().source_env(None, None, None).build();
    assert_eq!(default_config.rootdir, c.rootdir);
    assert_eq!(default_config.staticdir, c.staticdir);
}

#[test]
fn lone_slash_root_is_kept() {
    assert_eq!(ConfigBuilder::new().set_root("/").build().rootdir, "/");
    assert_eq!(ConfigBuilder::new().set_static("assets//").build().staticdir, "assets");
}
