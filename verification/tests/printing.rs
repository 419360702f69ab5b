use speedyf::errors::AppError;
use speedyf::printing::{
    is_page_range, is_safe_token, lp_arguments, lpoptions_arguments, parse_lpoptions, parse_printers, PrintJobDto,
    PrinterDto,
};

fn job(printer: &str) -> PrintJobDto {
    PrintJobDto {
        printer: printer.into(),
        copies: 1,
        range: None,
        options: Vec::new(),
    }
}

const PRINT_PATH: &str = "/tmp/speedyf-print-4242-0.pdf";

#[test]
fn reads_the_printers_lpstat_reports() {
    let p = "printer HP_ENVY_7640_series is idle.  enabled since Sat May 30 12:05:02 2026\n\
             printer Office_Laser is idle.  enabled since Mon Jan  6 09:00:00 2026\n";
    let d = "system default destination: HP_ENVY_7640_series\n";
    assert_eq!(
        parse_printers(p, d),
        vec![
            PrinterDto {
                name: "HP_ENVY_7640_series".into(),
                is_default: true
            },
            PrinterDto {
                name: "Office_Laser".into(),
                is_default: false
            },
        ]
    );
}

#[test]
fn survives_a_machine_with_no_printers() {
    assert!(parse_printers("", "no system default destination\n").is_empty());
    assert!(parse_printers("lpstat: No destinations added.\n", "").is_empty());
}

#[test]
fn reads_what_a_printer_can_vary() {
    let text = "Collate/Collate: True *False\n\
                cupsPrintQuality/Quality: Draft *Normal High\n\
                Duplex/2-Sided Printing: None *DuplexNoTumble DuplexTumble\n\
                MediaType/MediaType: stationery photographic-glossy *any\n";
    let options = parse_lpoptions(text);
    let duplex = options
        .iter()
        .find(|option| option.key == "Duplex")
        .expect("duplex");
    assert_eq!(duplex.label, "2-Sided Printing");
    assert_eq!(duplex.default, "DuplexNoTumble");
    assert_eq!(duplex.choices, ["None", "DuplexNoTumble", "DuplexTumble"]);
    assert_eq!(
        options
            .iter()
            .find(|o| o.key == "cupsPrintQuality")
            .unwrap()
            .default,
        "Normal"
    );
}

#[test]
fn ignores_options_that_offer_no_choice() {
    assert!(parse_lpoptions("PageRegion/Setting Page Region: *Letter\n").is_empty());
    assert!(parse_lpoptions("not an option line\n").is_empty());
}

#[test]
fn builds_the_argument_list_for_an_ordinary_job() {
    let mut j = job("HP_ENVY_7640_series");
    j.copies = 2;
    j.range = Some("1-4,9".into());
    j.options = vec![
        ("Duplex".into(), "DuplexNoTumble".into()),
        ("PageSize".into(), "Letter".into()),
    ];
    assert_eq!(
        lp_arguments(&j, PRINT_PATH, true).expect("valid job"),
        vec![
            "-d".to_string(),
            "HP_ENVY_7640_series".into(),
            "-n".into(),
            "2".into(),
            "-o".into(),
            "page-ranges=1-4,9".into(),
            "-o".into(),
            "Duplex=DuplexNoTumble".into(),
            "-o".into(),
            "PageSize=Letter".into(),
            PRINT_PATH.to_string(),
        ]
    );
}

#[test]
fn refuses_a_printer_name_that_is_an_instruction() {
    for hostile in [
        "HP; rm -rf /",
        "HP ENVY",
        "$(whoami)",
        "`id`",
        "../../etc/passwd",
        "-d",
        "",
    ] {
        assert!(
            lp_arguments(&job(hostile), PRINT_PATH, true).is_err(),
            "should have refused {hostile:?}"
        );
    }
}

#[test]
fn refuses_absurd_copy_counts() {
    for copies in [0, 100, 10_000] {
        let mut j = job("Printer");
        j.copies = copies;
        assert!(lp_arguments(&j, PRINT_PATH, true).is_err(), "copies={copies}");
    }
}

#[test]
fn refuses_a_malformed_page_range() {
    for range in ["1-", "-3", "1;2", "1 2", "0", "5-2", "a-b", "1-2-3", ""] {
        let mut j = job("Printer");
        j.range = Some(range.into());
        assert!(lp_arguments(&j, PRINT_PATH, true).is_err(), "range={range:?}");
    }
    for range in ["1", "2-5", "1,4,7-9", "12"] {
        let mut j = job("Printer");
        j.range = Some(range.into());
        assert!(lp_arguments(&j, PRINT_PATH, true).is_ok(), "range={range:?}");
    }
}

#[test]
fn refuses_a_file_that_is_not_a_prepared_job() {
    match lp_arguments(&job("Printer"), "/etc/passwd", false) {
        Err(AppError::Unsupported(message)) => assert_eq!(
            message,
            "refusing to print: that file is not a prepared print job"
        ),
        other => panic!("unexpected {other:?}"),
    }
}

#[test]
fn refusals_say_which_rule_was_broken() {
    let mut j = job("Printer");
    j.options = vec![("Duplex".into(), "a b".into())];
    match lp_arguments(&j, PRINT_PATH, true) {
        Err(AppError::Unsupported(message)) => assert_eq!(
            message,
            "refusing to print: printer option is not a plain CUPS token"
        ),
        other => panic!("unexpected {other:?}"),
    }
    let mut j = job("Printer");
    j.copies = 0;
    match lp_arguments(&j, PRINT_PATH, true) {
        Err(AppError::Unsupported(message)) => {
            assert_eq!(message, "refusing to print: copies must be between 1 and 99")
        }
        other => panic!("unexpected {other:?}"),
    }
}

#[test]
fn token_and_range_grammars() {
    assert!(is_safe_token("Office_Laser-2.local"));
    assert!(!is_safe_token("-n"));
    assert!(!is_safe_token(&"a".repeat(129)));
    assert!(is_safe_token(&"a".repeat(128)));
    assert!(is_page_range("999999"));
    assert!(!is_page_range("1000000"));
    assert!(!is_page_range("3-3,"));
    assert!(is_page_range("3-3"));
}

#[test]
fn printer_options_are_asked_only_of_a_cups_destination() {
    assert_eq!(
        lpoptions_arguments("Office_Laser").unwrap(),
        vec!["-l".to_string(), "-d".to_string(), "Office_Laser".to_string()]
    );
    for hostile in ["-oops", "a b", "x;rm", ""] {
        assert_eq!(
            lpoptions_arguments(hostile),
            Err(AppError::Unsupported("that is not a CUPS destination".into())),
            "{hostile}"
        );
    }
}
