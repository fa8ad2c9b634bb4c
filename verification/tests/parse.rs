use cache_control::{CacheControl, Cachability};

#[test]
fn test_from_value() {
    assert_eq!(
        CacheControl::from_value("").unwrap(),
        CacheControl::default()
    );
    assert_eq!(
        CacheControl::from_value("private")
            .unwrap()
            .cachability
            .unwrap(),
        Cachability::Private
    );
    assert_eq!(
        CacheControl::from_value("max-age=60")
            .unwrap()
            .max_age
            .unwrap(),
        60
    );
}

#[test]
fn test_from_value_multi() {
    let test1 = &CacheControl::from_value("no-cache, no-store, must-revalidate").unwrap();
    assert_eq!(test1.cachability, Some(Cachability::NoCache));
    assert_eq!(test1.no_store, true);
    assert_eq!(test1.must_revalidate, true);
    assert_eq!(
        *test1,
        CacheControl {
            cachability: Some(Cachability::NoCache),
            max_age: None,
            s_max_age: None,
            max_stale: None,
            min_fresh: None,
            must_revalidate: true,
            proxy_revalidate: false,
            immutable: false,
            no_store: true,
            no_transform: false,
            stale_while_revalidate: None,
            stale_if_error: None
        }
    );
}

#[test]
fn test_from_header() {
    assert_eq!(
        CacheControl::from_header("Cache-Control: ").unwrap(),
        CacheControl::default()
    );
    assert_eq!(
        CacheControl::from_header("Cache-Control: private")
            .unwrap()
            .cachability
            .unwrap(),
        Cachability::Private
    );
    assert_eq!(
        CacheControl::from_header("Cache-Control: max-age=60")
            .unwrap()
            .max_age
            .unwrap(),
        60
    );
    assert_eq!(CacheControl::from_header("foo"), None);
    assert_eq!(CacheControl::from_header("bar: max-age=60"), None);
}

#[test]
fn test_from_header_multi() {
    let test1 = &CacheControl::from_header("Cache-Control: public, max-age=600").unwrap();
    assert_eq!(test1.cachability, Some(Cachability::Public));
    assert_eq!(test1.max_age, Some(600));
    assert_eq!(
        *test1,
        CacheControl {
            cachability: Some(Cachability::Public),
            max_age: Some(600),
            s_max_age: None,
            max_stale: None,
            min_fresh: None,
            must_revalidate: false,
            proxy_revalidate: false,
            immutable: false,
            no_store: false,
            no_transform: false,
            stale_while_revalidate: None,
            stale_if_error: None
        }
    );
}

#[test]
fn test_stale_while_revalidate() {
    let test1 =
        &CacheControl::from_header("Cache-Control: public, stale-while-revalidate=60").unwrap();
    assert_eq!(
        *test1,
        CacheControl {
            cachability: Some(Cachability::Public),
            max_age: None,
            s_max_age: None,
            max_stale: None,
            min_fresh: None,
            must_revalidate: false,
            proxy_revalidate: false,
            immutable: false,
            no_store: false,
            no_transform: false,
            stale_while_revalidate: Some(60),
            stale_if_error: None
        }
    );

    let test2 = &CacheControl::from_header("Cache-Control: public, stale-while-revalidate");
    assert!(test2.is_none());

    let test3 = &CacheControl::from_header("Cache-Control: public, stale-while-revalidate=abc");
    assert!(test3.is_none());
}

#[test]
fn test_stale_if_error() {
    let test1 = &CacheControl::from_header("Cache-Control: public, stale-if-error=60").unwrap();
    assert_eq!(
        *test1,
        CacheControl {
            cachability: Some(Cachability::Public),
            max_age: None,
            s_max_age: None,
            max_stale: None,
            min_fresh: None,
            must_revalidate: false,
            proxy_revalidate: false,
            immutable: false,
            no_store: false,
            no_transform: false,
            stale_while_revalidate: None,
            stale_if_error: Some(60)
        }
    );

    let test2 = &CacheControl::from_header("Cache-Control: public, stale-if-error");
    assert!(test2.is_none());

    let test3 = &CacheControl::from_header("Cache-Control: public, stale-if-error=abc");
    assert!(test3.is_none());
}

#[test]
fn test_default_is_all_absent() {
    let d = CacheControl::default();
    assert_eq!(d.cachability, None);
    assert_eq!(d.max_age, None);
    assert_eq!(d.s_max_age, None);
    assert_eq!(d.max_stale, None);
    assert_eq!(d.min_fresh, None);
    assert_eq!(d.must_revalidate, false);
    assert_eq!(d.proxy_revalidate, false);
    assert_eq!(d.immutable, false);
    assert_eq!(d.no_store, false);
    assert_eq!(d.no_transform, false);
    assert_eq!(d.stale_while_revalidate, None);
    assert_eq!(d.stale_if_error, None);
}

#[test]
fn test_all_cachability_variants() {
    assert_eq!(
        CacheControl::from_value("public").unwrap().cachability,
        Some(Cachability::Public)
    );
    assert_eq!(
        CacheControl::from_value("no-cache").unwrap().cachability,
        Some(Cachability::NoCache)
    );
    assert_eq!(
        CacheControl::from_value("only-if-cached")
            .unwrap()
            .cachability,
        Some(Cachability::OnlyIfCached)
    );
}

#[test]
fn test_last_cachability_wins() {
    let r = CacheControl::from_value("private, public").unwrap();
    assert_eq!(r.cachability, Some(Cachability::Public));
    let r = CacheControl::from_value("public, no-cache, private").unwrap();
    assert_eq!(r.cachability, Some(Cachability::Private));
}

#[test]
fn test_same_input_parses_equal() {
    let line = "Cache-Control: public, max-age=31536000, immutable";
    let first = CacheControl::from_header(line);
    let second = CacheControl::from_header(line);
    assert_eq!(first, second);
    let value = "no-store, min-fresh=5";
    assert_eq!(CacheControl::from_value(value), CacheControl::from_value(value));
}

#[test]
fn test_unknown_directives_ignored() {
    let r = CacheControl::from_value("fizz, buzz=17, , =5").unwrap();
    assert_eq!(r, CacheControl::default());
    let r = CacheControl::from_value("s-maxage=10").unwrap();
    assert_eq!(r.s_max_age, None);
    assert_eq!(r, CacheControl::default());
}

#[test]
fn test_flag_value_ignored() {
    let r = CacheControl::from_value("no-store=0, immutable=no, no-transform, proxy-revalidate")
        .unwrap();
    assert_eq!(r.no_store, true);
    assert_eq!(r.immutable, true);
    assert_eq!(r.no_transform, true);
    assert_eq!(r.proxy_revalidate, true);
    assert_eq!(r.must_revalidate, false);
}

#[test]
fn test_numeric_missing_value_fails() {
    assert_eq!(CacheControl::from_value("max-age"), None);
    assert_eq!(CacheControl::from_value("max-stale"), None);
    assert_eq!(CacheControl::from_value("min-fresh"), None);
    assert_eq!(CacheControl::from_value("public, max-age"), None);
}

#[test]
fn test_numeric_bad_value_fails() {
    assert_eq!(CacheControl::from_value("max-age=12x"), None);
    assert_eq!(CacheControl::from_value("max-age="), None);
    assert_eq!(CacheControl::from_value("max-stale=  "), None);
    assert_eq!(CacheControl::from_value("min-fresh=-1"), None);
    assert_eq!(CacheControl::from_value("max-age=+60"), None);
}

#[test]
fn test_numeric_value_splits_on_first_equals() {
    assert_eq!(CacheControl::from_value("max-age=6=0"), None);
}

#[test]
fn test_numeric_bounds() {
    let r = CacheControl::from_value("max-age=18446744073709551615").unwrap();
    assert_eq!(r.max_age, Some(u64::MAX));
    assert_eq!(CacheControl::from_value("max-age=18446744073709551616"), None);
    let r = CacheControl::from_value("max-age=0").unwrap();
    assert_eq!(r.max_age, Some(0));
}

#[test]
fn test_numeric_directives_each_field() {
    let r = CacheControl::from_value("max-age=1, max-stale=2, min-fresh=3").unwrap();
    assert_eq!(r.max_age, Some(1));
    assert_eq!(r.max_stale, Some(2));
    assert_eq!(r.min_fresh, Some(3));
}

#[test]
fn test_whitespace_trimmed() {
    let r = CacheControl::from_value("  max-age =  60 ,  private ").unwrap();
    assert_eq!(r.max_age, Some(60));
    assert_eq!(r.cachability, Some(Cachability::Private));
    let r = CacheControl::from_header("  Cache-Control  :  no-store  ").unwrap();
    assert_eq!(r.no_store, true);
}

#[test]
fn test_header_shape_rejected() {
    assert_eq!(CacheControl::from_header(""), None);
    assert_eq!(CacheControl::from_header("Cache-Control"), None);
    assert_eq!(CacheControl::from_header("cache-control: private"), None);
    assert_eq!(CacheControl::from_header("Cache-Control: a, b:c"), None);
    assert_eq!(CacheControl::from_header("x: Cache-Control: private"), None);
}
