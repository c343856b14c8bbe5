use gimmisn_cron::context::{ConfigError, IniFile};

const CONFIG: &str = "[wsgi]\n\
reference_housenumbers = refdir/hazszamok_20190511.tsv refdir/hazszamok_kieg_20190808.tsv\n\
reference_street = refdir/utcak_20190514.tsv\n\
reference_citycounts = refdir/varosok_count_20190717.tsv\n\
uri_prefix = /osm\n\
cron_update_inactive = True\n";

fn ini(text: &str) -> IniFile {
    IniFile::new(String::from(text), "/srv").unwrap()
}

#[test]
fn test_paths_under_root() {
    let ini = ini(CONFIG);
    assert_eq!(ini.get_workdir(), "/srv/workdir");
    assert_eq!(
        ini.get_reference_housenumber_paths().unwrap(),
        vec![
            String::from("/srv/refdir/hazszamok_20190511.tsv"),
            String::from("/srv/refdir/hazszamok_kieg_20190808.tsv"),
        ]
    );
    assert_eq!(ini.get_reference_street_path().unwrap(), "/srv/refdir/utcak_20190514.tsv");
    assert_eq!(
        ini.get_reference_citycounts_path().unwrap(),
        "/srv/refdir/varosok_count_20190717.tsv"
    );
    assert_eq!(ini.get_uri_prefix().unwrap(), "/osm");
}

#[test]
fn test_missing_key() {
    let ini = ini(CONFIG);
    assert_eq!(
        ini.get_reference_zipcounts_path(),
        Err(ConfigError::MissingKey(String::from("reference_zipcounts")))
    );
}

#[test]
fn test_fallbacks() {
    let ini = ini("[wsgi]\n");
    assert_eq!(ini.get_tcp_port(), Ok(8000));
    assert_eq!(ini.get_overpass_uri(), "https://overpass-api.de");
    assert!(!ini.get_cron_update_inactive());
}

#[test]
fn test_cron_update_inactive() {
    assert!(ini(CONFIG).get_cron_update_inactive());
    assert!(!ini("[wsgi]\ncron_update_inactive = False\n").get_cron_update_inactive());
}

#[test]
fn test_tcp_port() {
    assert_eq!(ini("[wsgi]\ntcp_port = 8080\n").get_tcp_port(), Ok(8080));
    assert_eq!(ini("[wsgi]\ntcp_port = -1\n").get_tcp_port(), Ok(-1));
    assert!(matches!(
        ini("[wsgi]\ntcp_port = eighty\n").get_tcp_port(),
        Err(ConfigError::NotANumber(_))
    ));
}
