use gimmisn_cron::collation::{collate_cities, order_by_keys, reorder};
use gimmisn_cron::stats::{
    aggregate_extract, alias_lookup, parse_alias_table, city_key, group_counts, history_entry, is_expired_extract, reference_total,
    render_city_counts, render_count, render_count_line, render_top_editors, CityAlias,
    ExtractError, RefCountError, RETENTION_SECS,
};

fn chars(s: &str) -> Vec<char> {
    s.chars().collect()
}

fn text(v: &[char]) -> String {
    v.iter().collect()
}

const HEADER: &str = "addr:postcode\taddr:city\taddr:street\taddr:housenumber\t@user\n";

#[test]
fn test_dedup_ignores_editor() {
    let extract = format!(
        "{}1111\tBudapest\tFő utca\t1\talice\n1111\tBudapest\tFő utca\t1\tbob\n",
        HEADER
    );
    let stats = aggregate_extract(&chars(&extract), &Vec::new()).unwrap();
    assert_eq!(stats.housenumbers, 1);
    assert_eq!(text(&render_city_counts(&stats.cities)), "budapest\t1\n");
    assert_eq!(text(&render_count(stats.housenumbers as u64)), "1");
}

#[test]
fn test_top_editors_order() {
    let mut extract = String::from(HEADER);
    for i in 0..5 {
        extract.push_str(&format!("1111\tBudapest\tFő utca\t{}\talice\n", i));
    }
    for i in 0..3 {
        extract.push_str(&format!("1112\tBudapest\tKő utca\t{}\tbob\n", i));
    }
    let stats = aggregate_extract(&chars(&extract), &Vec::new()).unwrap();
    assert_eq!(text(&render_top_editors(&stats.top_editors)), "5 alice\n3 bob\n");
    assert_eq!(stats.editors, 2);
    assert_eq!(text(&render_count_line(stats.editors as u64)), "2\n");
    assert_eq!(stats.housenumbers, 8);
}

#[test]
fn test_top_editors_keeps_twenty_and_breaks_ties_by_name() {
    let mut extract = String::from(HEADER);
    for i in 0..25 {
        extract.push_str(&format!("1111\tBudapest\tFő utca\t{}\tuser{:02}\n", i, 24 - i));
    }
    extract.push_str("1111\tBudapest\tFő utca\t99\tuser20\n");
    let stats = aggregate_extract(&chars(&extract), &Vec::new()).unwrap();
    assert_eq!(stats.top_editors.len(), 20);
    assert_eq!(stats.editors, 25);
    let rendered = text(&render_top_editors(&stats.top_editors));
    let lines: Vec<&str> = rendered.lines().collect();
    assert_eq!(lines[0], "2 user20");
    assert_eq!(lines[1], "1 user00");
    assert_eq!(lines[2], "1 user01");
    assert_eq!(lines[19], "1 user18");
}

#[test]
fn test_rejected_extract_yields_nothing() {
    let extract = "<?xml version=\"1.0\" encoding=\"UTF-8\"?>\n<osm>runtime error</osm>\n";
    assert_eq!(
        aggregate_extract(&chars(extract), &Vec::new()).err(),
        Some(ExtractError::Rejected)
    );
}

#[test]
fn test_malformed_line_is_reported() {
    let extract = format!("{}1111\tBudapest\tFő utca\t1\talice\n1111\tBudapest\n", HEADER);
    assert_eq!(
        aggregate_extract(&chars(&extract), &Vec::new()).err(),
        Some(ExtractError::MalformedLine { line: 3 })
    );
}

#[test]
fn test_header_only_extract() {
    let stats = aggregate_extract(&chars(HEADER), &Vec::new()).unwrap();
    assert_eq!(stats.housenumbers, 0);
    assert_eq!(stats.editors, 0);
    assert!(stats.cities.is_empty());
    assert!(stats.top_editors.is_empty());
}

#[test]
fn test_city_counts_grouped_and_sorted() {
    let extract = format!(
        "{}7600\tPécs\tFő utca\t1\talice\n1111\tBudapest\tFő utca\t1\talice\n\
         1111\tBUDAPEST\tFő utca\t2\tbob\n7600\tPécs\tFő utca\t1\tbob\n2000\tSzentendre\tFő tér\t3\tcarol\n",
        HEADER
    );
    let stats = aggregate_extract(&chars(&extract), &Vec::new()).unwrap();
    assert_eq!(
        text(&render_city_counts(&stats.cities)),
        "budapest\t2\npécs\t1\nszentendre\t1\n"
    );
    assert_eq!(stats.housenumbers, 4);
}

#[test]
fn test_city_alias_applies() {
    let aliases = vec![CityAlias {
        postcode: chars("1111"),
        city: chars("budapest"),
        key: chars("budapest_11"),
    }];
    assert_eq!(text(&city_key(&aliases, &chars("1111"), &chars("Budapest"))), "budapest_11");
    assert_eq!(text(&city_key(&aliases, &chars("1051"), &chars("Budapest"))), "budapest");
    assert_eq!(text(&city_key(&Vec::new(), &chars("7600"), &chars("PÉCS"))), "pécs");
}

#[test]
fn test_group_counts_distinct_values() {
    let keys = vec![chars("b"), chars("a"), chars("b"), chars("b")];
    let values = vec![chars("x"), chars("x"), chars("y"), chars("x")];
    let groups = group_counts(&keys, &values);
    assert_eq!(groups.len(), 2);
    assert_eq!(text(&groups[0].text), "a");
    assert_eq!(groups[0].count, 1);
    assert_eq!(text(&groups[1].text), "b");
    assert_eq!(groups[1].count, 2);
}

#[test]
fn test_reference_total() {
    let table = "VAROS\tCNT\nBudapest\t100\nSzeged\t25\n";
    assert_eq!(reference_total(&chars(table)), Ok(125));
    assert_eq!(reference_total(&chars("VAROS\tCNT\n")), Ok(0));
}

#[test]
fn test_reference_total_malformed_row() {
    let table = "VAROS\tCNT\nBudapest\t100\nSzeged\tmany\n";
    assert_eq!(
        reference_total(&chars(table)),
        Err(RefCountError::MalformedRow { line: 3 })
    );
}

#[test]
fn test_reference_total_overflow() {
    let table = "VAROS\tCNT\nA\t18446744073709551615\nB\t1\n";
    assert_eq!(reference_total(&chars(table)), Err(RefCountError::Overflow));
}

#[test]
fn test_retention() {
    let day = 24 * 3600;
    assert_eq!(RETENTION_SECS, 7 * day);
    assert!(is_expired_extract(&chars("2021-05-01.csv"), 8 * day, true));
    assert!(!is_expired_extract(&chars("2021-05-03.csv"), 6 * day, true));
    assert!(!is_expired_extract(&chars("2021-05-01.count"), 8 * day, true));
    assert!(!is_expired_extract(&chars("old.csv"), 8 * day, false));
}

#[test]
fn test_history_entry() {
    let entry = history_entry(&chars("2021-06-01.count"), &chars("254651")).unwrap();
    assert_eq!(text(&entry.day), "2021-06-01");
    assert_eq!(entry.count, 254651);
    let entry = history_entry(&chars("2021-06-02.count"), &chars("7\n")).unwrap();
    assert_eq!(entry.count, 7);
    assert!(history_entry(&chars("ref.count"), &chars("300\n")).is_none());
    assert!(history_entry(&chars("2021-06-01.usercount"), &chars("3\n")).is_none());
    assert!(history_entry(&chars("2021-06-01.count"), &chars("n/a")).is_none());
}

#[test]
fn test_alias_lookup() {
    let aliases = vec![
        CityAlias { postcode: chars("1111"), city: chars("budapest"), key: chars("budapest_11") },
        CityAlias { postcode: chars("1111"), city: chars("budapest"), key: chars("other") },
    ];
    assert_eq!(text(&alias_lookup(&aliases, &chars("1111"), &chars("budapest"))), "budapest_11");
    assert_eq!(text(&alias_lookup(&aliases, &chars("1111"), &chars("Budapest"))), "Budapest");
    assert_eq!(text(&alias_lookup(&Vec::new(), &chars("2000"), &chars("szentendre"))), "szentendre");
}

#[test]
fn test_city_counts_in_hungarian_order() {
    let extract = format!(
        "{}2030\tÉrd\tFő utca\t1\talice\n2151\tFót\tFő utca\t1\talice\n\
         1111\tBudapest\tFő utca\t1\talice\n2030\tÉrd\tFő utca\t2\tbob\n",
        HEADER
    );
    let stats = aggregate_extract(&chars(&extract), &Vec::new()).unwrap();
    assert_eq!(text(&render_city_counts(&stats.cities)), "budapest\t1\nfót\t1\nérd\t2\n");
    let order = collate_cities(&stats.cities).unwrap();
    let cities = reorder(&stats.cities, &order);
    assert_eq!(text(&render_city_counts(&cities)), "budapest\t1\nérd\t2\nfót\t1\n");
}

#[test]
fn test_order_by_keys_keeps_ties_in_place() {
    let keys = vec![chars("b"), chars("a"), chars("b"), chars("")];
    assert_eq!(order_by_keys(&keys), vec![3, 1, 0, 2]);
}

#[test]
fn test_parse_alias_table() {
    let aliases = parse_alias_table(&chars("1111\tbudapest\tbudapest_11\n1011\tbudapest\tbudapest_01\n")).unwrap();
    assert_eq!(aliases.len(), 2);
    assert_eq!(text(&aliases[1].key), "budapest_01");
    assert_eq!(parse_alias_table(&chars("1111\tbudapest\n")).err(), Some(1));
    assert!(parse_alias_table(&chars("")).unwrap().is_empty());
}
