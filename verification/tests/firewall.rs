use raven_init::firewall::{
    accept_rules, allow_in, code_of, input_chain_span, input_policy, input_statements,
    looks_like_permission_trouble, parse_port_spec, AllowOutcome, PortSpec, Proto, BEGIN_MARKER,
    END_MARKER,
};

const SAMPLE: &str = "\
#!/usr/bin/nft -f
# A header.

flush ruleset

table inet filter {

\t# A comment about the chain.
\tchain input {
\t\ttype filter hook input priority filter; policy drop;

\t\tct state established,related accept
\t\tiif \"lo\" accept
\t\tct state invalid drop

\t\tmeta l4proto icmp icmp type {
\t\t\techo-request,
\t\t\ttime-exceeded
\t\t} accept

\t\tudp sport 67 udp dport 68 accept

\t\t# Not enabled, deliberately:
\t\t#   tcp dport 22 accept
\t}

\tchain output {
\t\ttype filter hook output priority filter; policy accept;
\t}
}
";

#[test]
fn a_port_is_tcp_unless_it_says_otherwise() {
    assert_eq!(parse_port_spec("22"), Ok(PortSpec { proto: Proto::Tcp, port: 22 }));
    assert_eq!(parse_port_spec("22/tcp"), Ok(PortSpec { proto: Proto::Tcp, port: 22 }));
    assert_eq!(parse_port_spec("5353/udp"), Ok(PortSpec { proto: Proto::Udp, port: 5353 }));
    assert_eq!(parse_port_spec("65535").map(|s| s.port), Ok(65535));
}

#[test]
fn a_port_that_is_not_one_is_refused() {
    assert!(parse_port_spec("0").is_err());
    assert!(parse_port_spec("65536").is_err());
    assert!(parse_port_spec("ssh").is_err());
    assert!(parse_port_spec("22/sctp").is_err());
    assert!(parse_port_spec("").is_err());
    assert!(parse_port_spec("-1").is_err());
}

#[test]
fn refusals_say_what_was_wrong() {
    assert_eq!(parse_port_spec("0"), Err("port 0 is not a port".to_string()));
    assert_eq!(
        parse_port_spec("ssh"),
        Err("`ssh` is not a port number between 1 and 65535".to_string())
    );
    assert_eq!(
        parse_port_spec("22/sctp"),
        Err("`sctp` is not a protocol; write tcp or udp, as in 5353/udp".to_string())
    );
    assert_eq!(PortSpec { proto: Proto::Udp, port: 5353 }.rule(), "udp dport 5353 accept");
}

#[test]
fn the_input_chain_ends_where_it_ends() {
    let lines: Vec<&str> = SAMPLE.lines().collect();
    let (start, end) = input_chain_span(&lines).expect("the sample has an input chain");
    assert!(lines[start].contains("chain input"));
    assert_eq!(lines[end].trim(), "}");
    assert!(lines[end - 1].trim().starts_with("#   tcp dport 22"));
}

#[test]
fn the_policy_is_read_off_the_hook_line() {
    assert_eq!(input_policy(SAMPLE).as_deref(), Some("drop"));
    assert_eq!(input_policy("table inet filter {\n}\n"), None);
}

#[test]
fn only_real_accepts_are_listed() {
    let rules = accept_rules(SAMPLE);
    assert_eq!(
        rules,
        vec![
            "ct state established,related accept",
            "iif \"lo\" accept",
            "meta l4proto icmp icmp type { echo-request, time-exceeded } accept",
            "udp sport 67 udp dport 68 accept",
        ]
    );
    assert!(!rules.iter().any(|r| r.contains("drop")));
    assert!(!rules.iter().any(|r| r.contains("dport 22")));
    assert_eq!(input_statements(SAMPLE).len(), 6);
}

#[test]
fn allowing_a_port_adds_a_block_and_changes_nothing_else() {
    let spec = PortSpec { proto: Proto::Tcp, port: 22 };
    let AllowOutcome::Added(updated) = allow_in(SAMPLE, spec).unwrap() else {
        panic!("the sample does not allow 22 yet");
    };

    assert!(updated.contains("\t\ttcp dport 22 accept\n"));
    assert!(updated.contains(BEGIN_MARKER));
    assert!(updated.contains(END_MARKER));
    assert!(updated.ends_with('\n'));

    let mut original = SAMPLE.lines();
    for line in updated.lines() {
        if line.trim().is_empty() {
            continue;
        }
        if line.trim().starts_with('#') && line.contains("raven-firewall") {
            continue;
        }
        if line.trim() == "tcp dport 22 accept" {
            continue;
        }
        if line.trim().starts_with("# everything outside")
            || line.trim().starts_with("# line here")
            || line.trim().starts_with("# Everything between")
        {
            continue;
        }
        loop {
            let next = original.next().expect("updated has a line the original lacked");
            if next.trim().is_empty() {
                continue;
            }
            assert_eq!(next, line);
            break;
        }
    }
}

#[test]
fn the_new_rule_lands_inside_the_input_chain() {
    let spec = PortSpec { proto: Proto::Udp, port: 5353 };
    let AllowOutcome::Added(updated) = allow_in(SAMPLE, spec).unwrap() else {
        panic!("the sample does not allow 5353/udp yet");
    };
    assert!(accept_rules(&updated).contains(&"udp dport 5353 accept".to_string()));
    assert_eq!(input_policy(&updated).as_deref(), Some("drop"));
}

#[test]
fn a_second_port_joins_the_block_rather_than_starting_another() {
    let AllowOutcome::Added(once) =
        allow_in(SAMPLE, PortSpec { proto: Proto::Tcp, port: 22 }).unwrap()
    else {
        panic!("first allow");
    };
    let AllowOutcome::Added(twice) =
        allow_in(&once, PortSpec { proto: Proto::Tcp, port: 80 }).unwrap()
    else {
        panic!("second allow");
    };

    assert_eq!(twice.matches(BEGIN_MARKER).count(), 1);
    assert_eq!(twice.matches(END_MARKER).count(), 1);
    let rules = accept_rules(&twice);
    let at22 = rules.iter().position(|r| r == "tcp dport 22 accept").unwrap();
    let at80 = rules.iter().position(|r| r == "tcp dport 80 accept").unwrap();
    assert!(at22 < at80);
}

#[test]
fn allowing_the_same_port_twice_is_uneventful() {
    let AllowOutcome::Added(once) =
        allow_in(SAMPLE, PortSpec { proto: Proto::Tcp, port: 22 }).unwrap()
    else {
        panic!("first allow");
    };
    assert_eq!(
        allow_in(&once, PortSpec { proto: Proto::Tcp, port: 22 }).unwrap(),
        AllowOutcome::AlreadyManaged
    );
}

#[test]
fn a_hand_written_rule_is_reported_and_not_duplicated() {
    let by_hand = SAMPLE.replace("\t\tct state invalid drop", "\t\ttcp dport 631 accept");
    assert_eq!(
        allow_in(&by_hand, PortSpec { proto: Proto::Tcp, port: 631 }).unwrap(),
        AllowOutcome::AlreadyByHand("tcp dport 631 accept".to_string())
    );
}

#[test]
fn a_conditional_rule_does_not_count_as_opening_the_port() {
    let outcome = allow_in(SAMPLE, PortSpec { proto: Proto::Udp, port: 68 }).unwrap();
    assert!(matches!(outcome, AllowOutcome::Added(_)));
}

#[test]
fn a_file_with_no_input_chain_is_refused_rather_than_mangled() {
    let no_chain = "table inet filter {\n\tchain output {\n\t}\n}\n";
    assert_eq!(
        allow_in(no_chain, PortSpec { proto: Proto::Tcp, port: 22 }),
        Err("/etc/nftables.conf has no `chain input` for the rule to go in; edit it by hand"
            .to_string())
    );
}

#[test]
fn a_space_indented_file_stays_space_indented() {
    let spaces = "table inet filter {\n  chain input {\n    type filter hook input priority filter; policy drop;\n  }\n}\n";
    let AllowOutcome::Added(updated) =
        allow_in(spaces, PortSpec { proto: Proto::Tcp, port: 22 }).unwrap()
    else {
        panic!("allow");
    };
    assert!(updated.contains("\n    tcp dport 22 accept\n"));
    assert!(!updated.contains('\t'));
}

#[test]
fn an_empty_chain_is_indented_one_tab_in_from_its_brace() {
    let empty = "table inet filter {\n  chain input {\n  }\n}";
    let AllowOutcome::Added(updated) =
        allow_in(empty, PortSpec { proto: Proto::Tcp, port: 80 }).unwrap()
    else {
        panic!("allow");
    };
    assert!(updated.contains("\n  \ttcp dport 80 accept\n"));
    assert!(!updated.ends_with('\n'));
}

#[test]
fn comments_are_not_code() {
    assert_eq!(code_of("\t\t#   tcp dport 22 accept"), "\t\t");
    assert_eq!(code_of("flush ruleset # again"), "flush ruleset ");
    assert!(looks_like_permission_trouble("Error: Operation not permitted"));
    assert!(!looks_like_permission_trouble("Error: No such file or directory"));
}

#[test]
fn a_second_allow_finds_the_rule_in_a_file_with_windows_line_endings() {
    let crlf = SAMPLE.replace('\n', "\r\r\n");
    for port in [22u16, 5353] {
        let spec = PortSpec { proto: Proto::Udp, port };
        let AllowOutcome::Added(once) = allow_in(&crlf, spec).unwrap() else {
            panic!("first allow");
        };
        assert_eq!(allow_in(&once, spec).unwrap(), AllowOutcome::AlreadyManaged);
    }
    let mut text = SAMPLE.to_string();
    for port in [22u16, 80, 443] {
        let spec = PortSpec { proto: Proto::Tcp, port };
        let AllowOutcome::Added(next) = allow_in(&text, spec).unwrap() else {
            panic!("allow {port}");
        };
        assert_eq!(allow_in(&next, spec).unwrap(), AllowOutcome::AlreadyManaged);
        text = next;
    }
}

#[test]
fn a_fresh_block_is_all_the_first_allow_adds() {
    let empty = "table inet filter {\n  chain input {\n  }\n}";
    let AllowOutcome::Added(updated) =
        allow_in(empty, PortSpec { proto: Proto::Tcp, port: 80 }).unwrap()
    else {
        panic!("allow");
    };
    assert_eq!(
        updated,
        "table inet filter {\n  chain input {\n\
         \x20 \t# BEGIN raven-firewall -- ports opened with `raven-firewall allow`.\n\
         \x20 \t# Everything between these two markers is rewritten by that command;\n\
         \x20 \t# everything outside them is left exactly as you wrote it. Deleting a\n\
         \x20 \t# line here by hand is how a port gets closed again.\n\
         \x20 \ttcp dport 80 accept\n\
         \x20 \t# END raven-firewall\n  }\n}"
    );
}
