//! The tool-output parsers and the auxiliary calculators.

use nettools::arp::parse_arp_output;
use nettools::dns::{
    parse_address_records, parse_cname_records, parse_mx_records, parse_ns_records,
    parse_txt_records, DnsRecord,
};
use nettools::hashes::{generate_hashes, hash_file_contents};
use nettools::mac::{classify_vendor_response, format_mac, get_oui_database, parse_mac};
use nettools::scanner::{extract_rtt, extract_ttl, get_hostname, parse_local_ip, ping_outcome};
use nettools::ssl::{check_ssl_powershell, days_between};
use nettools::subnet::{calculate_subnet, prefix_to_subnet, subnet_to_prefix};
use nettools::network_profile::{parse_hosts_content, validate_computer_name};
use nettools::traceroute::parse_traceroute_output;
use nettools::whois::{determine_whois_server, parse_whois_output};

#[test]
fn english_reply_is_online_with_readings() {
    let out = "Pinging 1.2.3.4 with 32 bytes of data:\r\nReply from 1.2.3.4: bytes=32 time=23ms TTL=64\r\n";
    let r = ping_outcome("1.2.3.4".to_string(), true, out);
    assert_eq!(r.status, "online");
    assert_eq!(r.rtt_us, Some(23_000));
    assert_eq!(r.ttl, Some(64));
    assert_eq!(r.ip, "1.2.3.4");
    assert!(r.hostname.is_none());
}

#[test]
fn german_reply_is_online() {
    let out = "Antwort von 10.0.0.1: Bytes=32 Zeit=3ms TTL=128\r\n";
    let r = ping_outcome("10.0.0.1".to_string(), true, out);
    assert_eq!(r.status, "online");
    assert_eq!(r.rtt_us, Some(3_000));
    assert_eq!(r.ttl, Some(128));
}

#[test]
fn sub_millisecond_reading_is_half() {
    assert_eq!(extract_rtt("Reply from 1.1.1.1: bytes=32 time<1ms TTL=64"), Some(500));
    assert_eq!(extract_rtt("Antwort von 1.1.1.1: Bytes=32 Zeit<1ms TTL=64"), Some(500));
}

#[test]
fn fractional_reading_in_microseconds() {
    assert_eq!(extract_rtt("64 bytes from 1.1.1.1: icmp_seq=1 ttl=64 time=0.123 ms"), Some(123));
    assert_eq!(extract_rtt("... time=12.5ms ..."), Some(12_500));
    assert_eq!(extract_rtt("no reading here"), None);
}

#[test]
fn timeout_text_in_both_languages() {
    let r = ping_outcome("1.2.3.4".to_string(), false, "Request timed out.");
    assert_eq!(r.status, "timeout");
    let r = ping_outcome("1.2.3.4".to_string(), false, "Zeit\u{fc}berschreitung der Anforderung.");
    assert_eq!(r.status, "timeout");
    let r = ping_outcome("1.2.3.4".to_string(), false, "Destination host unreachable.");
    assert_eq!(r.status, "offline");
}

#[test]
fn ttl_scanning_skips_bad_lines() {
    assert_eq!(extract_ttl("TTL=999\nsomething TTL=64"), Some(64));
    assert_eq!(extract_ttl("TTL="), None);
}

#[test]
fn hostname_parsed_from_lookup_output() {
    let out = "Server:  dns.local\r\nAddress: 10.0.0.53\r\n\r\nName:    host.example.com\r\nAddress:  10.0.0.7\r\n";
    assert_eq!(get_hostname(out).unwrap(), "host.example.com");
    assert_eq!(get_hostname("nothing useful"), Err("Hostname not found".to_string()));
}

#[test]
fn local_ip_skips_loopback() {
    let out = "   IPv4 Address. . . : 127.0.0.1\r\n   IPv4 Address. . . : 192.168.0.12\r\n";
    assert_eq!(parse_local_ip(out).unwrap(), "192.168.0.12");
    assert_eq!(
        parse_local_ip(""),
        Err("Could not determine local IP address".to_string())
    );
}

#[test]
fn arp_rows_under_their_interface() {
    let out = "Interface: 192.168.0.12 --- 0x8\r\nInternet Address      Physical Address      Type\r\n  192.168.0.1           aa-bb-cc-dd-ee-ff     dynamic\r\n  224.0.0.22            01005e000016          static\r\n";
    let entries = parse_arp_output(out);
    assert_eq!(entries.len(), 1);
    assert_eq!(entries[0].ip, "192.168.0.1");
    assert_eq!(entries[0].mac, "aa-bb-cc-dd-ee-ff");
    assert_eq!(entries[0].interface, "192.168.0.12");
    assert_eq!(entries[0].entry_type, "dynamic");
}

#[test]
fn address_records_in_answer_section() {
    let out = "Server:  dns.local\r\nAddress:  10.0.0.53#53\r\n\r\nName:    example.com\r\nAddress:  93.184.216.34\r\n";
    let mut records: Vec<DnsRecord> = Vec::new();
    parse_address_records(out, "example.com", "A", &mut records);
    assert_eq!(records.len(), 1);
    assert_eq!(records[0].record_type, "A");
    assert_eq!(records[0].name, "example.com");
    assert_eq!(records[0].value, "93.184.216.34");
    assert_eq!(records[0].ttl, 300);
}

#[test]
fn addresses_line_yields_each_match() {
    let out = "Name: example.com\r\nAddresses: 1.2.3.4 5.6.7.8\r\n";
    let mut records: Vec<DnsRecord> = Vec::new();
    parse_address_records(out, "example.com", "A", &mut records);
    assert_eq!(records.len(), 2);
    assert_eq!(records[0].value, " 1.2.3.4 5.6.7.8".split_whitespace().next().unwrap());
    assert_eq!(records[1].value, "5.6.7.8");
}

#[test]
fn mx_record_with_priority() {
    let out = "example.com  MX preference = 10, mail exchanger = mail.example.com.\r\n";
    let mut records: Vec<DnsRecord> = Vec::new();
    parse_mx_records(out, "example.com", &mut records);
    assert_eq!(records.len(), 1);
    assert_eq!(records[0].record_type, "MX");
    assert_eq!(records[0].value, "10 mail.example.com");
}

#[test]
fn ns_txt_cname_records() {
    let mut records: Vec<DnsRecord> = Vec::new();
    parse_ns_records("example.com  nameserver = ns1.example.com.\r\n", "example.com", &mut records);
    assert_eq!(records[0].value, "ns1.example.com");
    let mut records: Vec<DnsRecord> = Vec::new();
    parse_txt_records(
        "example.com  text = \"some verification token\"\r\nexample.com  text = \"\"\r\n",
        "example.com",
        &mut records,
    );
    assert_eq!(records.len(), 1);
    assert_eq!(records[0].value, "some verification token");
    let mut records: Vec<DnsRecord> = Vec::new();
    parse_cname_records("www.example.com  canonical name = example.com.\r\n", "www.example.com", &mut records);
    assert_eq!(records[0].value, "example.com");
}

#[test]
fn whois_server_by_tld() {
    assert_eq!(determine_whois_server("EXAMPLE.COM"), "whois.verisign-grs.com");
    assert_eq!(determine_whois_server("example.org"), "whois.pir.org");
    assert_eq!(determine_whois_server("example.de"), "whois.denic.de");
    assert_eq!(determine_whois_server("example.dev"), "whois.iana.org");
    assert_eq!(determine_whois_server("nodots"), "whois.iana.org");
}

#[test]
fn whois_fields_parsed() {
    let raw = "Domain Name: EXAMPLE.COM\r\nRegistrar: Example Registrar, Inc.\r\nCreation Date: 1995-08-14T04:00:00Z\r\nRegistry Expiry Date: 2025-08-13T04:00:00Z\r\nName Server: A.IANA-SERVERS.NET\r\nName Server: B.IANA-SERVERS.NET\r\nDomain Status: clientDeleteProhibited\r\n";
    let r = parse_whois_output("example.com", raw);
    assert_eq!(r.registrar, Some("Example Registrar, Inc.".to_string()));
    assert_eq!(r.creation_date, Some("1995-08-14T04:00:00Z".to_string()));
    assert_eq!(r.expiration_date, Some("2025-08-13T04:00:00Z".to_string()));
    assert_eq!(
        r.name_servers,
        vec!["A.IANA-SERVERS.NET".to_string(), "B.IANA-SERVERS.NET".to_string()]
    );
    assert_eq!(r.status, vec!["clientDeleteProhibited".to_string()]);
    assert_eq!(r.domain, "example.com");
    assert_eq!(r.raw_data, raw);
}

#[test]
fn subnet_of_a_24() {
    let info = calculate_subnet("192.168.1.0/24".to_string()).unwrap();
    assert_eq!(info.network, "192.168.1.0");
    assert_eq!(info.broadcast, "192.168.1.255");
    assert_eq!(info.netmask, "255.255.255.0");
    assert_eq!(info.wildcard_mask, "0.0.0.255");
    assert_eq!(info.first_host, "192.168.1.1");
    assert_eq!(info.last_host, "192.168.1.254");
    assert_eq!(info.total_hosts, 256);
    assert_eq!(info.usable_hosts, 254);
    assert_eq!(info.cidr, 24);
    assert_eq!(info.ip_class, "C");
    assert!(info.is_private);
}

#[test]
fn subnet_point_to_point_and_errors() {
    let info = calculate_subnet("10.0.0.0/31".to_string()).unwrap();
    assert_eq!(info.total_hosts, 2);
    assert_eq!(info.usable_hosts, 2);
    assert_eq!(info.first_host, "10.0.0.0");
    assert!(calculate_subnet("not-a-network".to_string()).is_err());
    assert!(calculate_subnet("0.0.0.0/0".to_string()).is_err());
}

#[test]
fn mask_conversions_round_trip() {
    assert_eq!(prefix_to_subnet(24), "255.255.255.0");
    assert_eq!(prefix_to_subnet(0), "0.0.0.0");
    assert_eq!(subnet_to_prefix("255.255.255.0"), 24);
    assert_eq!(subnet_to_prefix("255.255.0.0"), 16);
    assert_eq!(subnet_to_prefix("garbage"), 24);
}

#[test]
fn mac_formats_and_vendor() {
    let r = format_mac("00:00:0c:aa:bb:cc".to_string());
    assert!(r.is_valid);
    assert_eq!(r.formats.colon_upper, "00:00:0C:AA:BB:CC");
    assert_eq!(r.formats.hyphen_lower, "00-00-0c-aa-bb-cc");
    assert_eq!(r.formats.dot_lower, "0000.0caa.bbcc");
    assert_eq!(r.formats.no_separator, "00000CAABBCC");
    assert_eq!(r.formats.cisco, "0000.0caa.bbcc");
    assert_eq!(r.vendor, Some("Cisco Systems".to_string()));
    assert_eq!(r.original, "00:00:0c:aa:bb:cc");
}

#[test]
fn mac_invalid_input() {
    let r = format_mac("12:34".to_string());
    assert!(!r.is_valid);
    assert!(r.vendor.is_none());
    assert_eq!(r.formats.colon_upper, "");
    assert!(parse_mac("00:11:22:33:44:55").is_some());
    assert!(parse_mac("00:11:22:33:44").is_none());
}

#[test]
fn oui_table_has_known_vendors() {
    let db = get_oui_database();
    assert_eq!(db.len(), 100);
    assert!(db.iter().any(|(k, v)| *k == "08:00:27" && *v == "Oracle VirtualBox"));
}

#[test]
fn vendor_api_answers() {
    assert_eq!(
        classify_vendor_response(200, "  Cisco Systems, Inc  "),
        Ok("Cisco Systems, Inc".to_string())
    );
    assert_eq!(
        classify_vendor_response(200, "  "),
        Ok("Unbekannter Hersteller".to_string())
    );
    assert_eq!(
        classify_vendor_response(404, "whatever"),
        Ok("Unbekannter Hersteller".to_string())
    );
    assert_eq!(
        classify_vendor_response(429, ""),
        Err("Rate Limit erreicht. Bitte sp\u{e4}ter erneut versuchen.".to_string())
    );
    assert_eq!(
        classify_vendor_response(500, ""),
        Err("API-Fehler: HTTP 500".to_string())
    );
}

#[test]
fn digests_of_known_inputs() {
    let r = generate_hashes(String::new());
    assert_eq!(r.md5, "d41d8cd98f00b204e9800998ecf8427e");
    assert_eq!(r.sha1, "da39a3ee5e6b4b0d3255bfef95601890afd80709");
    assert_eq!(
        r.sha256,
        "e3b0c44298fc1c149afbf4c8996fb92427ae41e4649b934ca495991b7852b855"
    );
    assert_eq!(
        r.sha512,
        "cf83e1357eefb8bdf1542850d66d8007d620e4050b5715dc83f4a921d36ce9ce47d0d13c5d85f2b0ff8318d2877eec2f63b931bd47417a81a538327af927da3e"
    );
    assert_eq!(r.input_type, "text");
    let abc = generate_hashes("abc".to_string());
    assert_eq!(abc.md5, "900150983cd24fb0d6963f7d28e17f72");
    assert_eq!(abc.sha1, "a9993e364706816aba3e25717850c26c9cd0d89d");
    assert_eq!(abc.input, "abc");
}

#[test]
fn long_text_input_is_shortened() {
    let long = "x".repeat(150);
    let r = generate_hashes(long.clone());
    assert_eq!(r.input.len(), 103);
    assert!(r.input.ends_with("..."));
    let by_file = hash_file_contents("p".to_string(), long.as_bytes());
    assert_eq!(by_file.md5, r.md5);
    assert_eq!(by_file.input_type, "file");
}

#[test]
fn certificate_fields_from_marked_output() {
    let out = "SUBJECT:CN=example.com\r\nISSUER:CN=Example CA\r\nNOTBEFORE:2020-01-01T00:00:00+00:00\r\nNOTAFTER:not-a-date\r\nSERIAL:0123ABCD\r\n";
    let r = check_ssl_powershell("example.com", 443, out).unwrap();
    assert_eq!(r.host, "example.com");
    assert_eq!(r.port, 443);
    assert!(r.error.is_none());
    let cert = r.certificate.unwrap();
    assert_eq!(cert.subject, "CN=example.com");
    assert_eq!(cert.issuer, "CN=Example CA");
    assert_eq!(cert.valid_to, "not-a-date");
    assert_eq!(cert.serial_number, "0123ABCD");
    // an unparsable expiry counts as a year away
    assert_eq!(cert.days_until_expiry, 365);
    assert!(cert.is_valid);
    assert_eq!(cert.san, vec!["example.com".to_string()]);
}

#[test]
fn certificate_error_line_wins() {
    let out = "ERROR:connection refused\r\n";
    let r = check_ssl_powershell("example.com", 443, out).unwrap();
    assert!(r.certificate.is_none());
    assert_eq!(r.error, Some("connection refused".to_string()));
    assert!(r.protocol_version.is_none());
}

#[test]
fn day_arithmetic_truncates_toward_zero() {
    assert_eq!(days_between(86_400_000, 0), 1);
    assert_eq!(days_between(86_399_999, 0), 0);
    assert_eq!(days_between(0, 86_400_000), -1);
    assert_eq!(days_between(-86_399_999, 0), 0);
}

#[test]
fn traceroute_hops_parsed() {
    let out = "Tracing route to example.com [93.184.216.34]\r\nover a maximum of 30 hops:\r\n\r\n  1    <1 ms    <1 ms    <1 ms  192.168.1.1\r\n  2     5 ms     6 ms     7 ms  gateway.isp.net [10.0.0.1]\r\n  3     *        *        *     Request timed out.\r\nTrace complete.\r\n";
    let hops = parse_traceroute_output(out);
    assert_eq!(hops.len(), 3);
    assert_eq!(hops[0].hop, 1);
    assert_eq!(hops[0].ip, Some("192.168.1.1".to_string()));
    assert_eq!(hops[0].rtt1_us, Some(500));
    assert_eq!(hops[1].hop, 2);
    assert_eq!(hops[1].rtt1_us, Some(5_000));
    assert_eq!(hops[1].rtt3_us, Some(7_000));
    // dotted tokens always take the address branch: a bracketed or
    // named gateway sets neither the address nor the host name
    assert_eq!(hops[1].ip, None);
    assert_eq!(hops[1].hostname, None);
    assert_eq!(hops[2].hop, 3);
    assert_eq!(hops[2].ip, None);
    assert_eq!(hops[2].rtt1_us, None);
}

#[test]
fn hosts_file_rows_parsed() {
    let content = "# managed\r\n127.0.0.1   localhost\r\n10.0.0.5  printer  added by hand\r\n\r\nbroken\r\n";
    let entries = parse_hosts_content(content);
    assert_eq!(entries.len(), 2);
    assert_eq!(entries[0].ip, "127.0.0.1");
    assert_eq!(entries[0].hostname, "localhost");
    assert_eq!(entries[0].comment, None);
    assert_eq!(entries[1].ip, "10.0.0.5");
    assert_eq!(entries[1].comment, Some("added by hand".to_string()));
}

#[test]
fn machine_name_rules() {
    assert!(validate_computer_name("host-01").is_ok());
    assert_eq!(
        validate_computer_name(""),
        Err("Computer-Name muss 1-15 Zeichen lang sein".to_string())
    );
    assert_eq!(
        validate_computer_name("sixteen-chars-xx"),
        Err("Computer-Name muss 1-15 Zeichen lang sein".to_string())
    );
    assert_eq!(
        validate_computer_name("bad name"),
        Err("Computer-Name darf nur Buchstaben, Zahlen und Bindestriche enthalten".to_string())
    );
}
