use mqtt_broker::server::configuracion::Configuracion;
use mqtt_broker::server::configuration::Configuration;

const TEST_CONFIG: &str = "port=1883\nlogfile=file.log\n";

#[test]
fn test01_direccion_correcta() {
    let mut aux = Configuration::new();
    aux.set_config(TEST_CONFIG).unwrap();
    assert_eq!(aux.get_address(), "127.0.0.1:1883");
}

#[test]
fn test02_logfile_correcto() {
    let mut aux = Configuration::new();
    aux.set_config(TEST_CONFIG).unwrap();
    assert_eq!(aux.get_log_file(), "file.log");
}

#[test]
fn defaults_hold_until_the_text_overrides_them() {
    let cfg = Configuration::new();
    assert_eq!(cfg.get_address(), "127.0.0.1:7666");
    assert_eq!(cfg.get_log_file(), "logfile.txt");
    assert!(cfg.password);
}

#[test]
fn keys_are_lowercased_and_values_trimmed() {
    let mut cfg = Configuration::new();
    cfg.set_config("PORT = 1900\n Ip = 10.0.0.7 \n").unwrap();
    assert_eq!(cfg.get_address(), "10.0.0.7:1900");
}

#[test]
fn last_line_wins_for_a_repeated_key() {
    let mut cfg = Configuration::new();
    cfg.set_config("port=1000\nport=2000\n").unwrap();
    assert_eq!(cfg.get_address(), "127.0.0.1:2000");
}

#[test]
fn password_zero_disables_the_requirement() {
    let mut cfg = Configuration::new();
    cfg.set_config("password=0\n").unwrap();
    assert!(!cfg.password);
    let mut still_required = Configuration::new();
    still_required.set_config("password=7\n").unwrap();
    assert!(still_required.password);
}

#[test]
fn a_line_without_equals_fails_the_parse() {
    let mut cfg = Configuration::new();
    assert!(cfg.set_config("port 1883\n").is_err());
}

#[test]
fn an_out_of_range_port_fails_the_parse() {
    let mut cfg = Configuration::new();
    assert!(cfg.set_config("port=65536\n").is_err());
    let mut other = Configuration::new();
    assert!(other.set_config("port=abc\n").is_err());
}

#[test]
fn unknown_keys_are_ignored() {
    let mut cfg = Configuration::new();
    cfg.set_config("colour=red\nport=1884\n").unwrap();
    assert_eq!(cfg.get_address(), "127.0.0.1:1884");
}

#[test]
fn check_number_between_bounds_the_value() {
    let mut cfg = Configuration::new();
    assert!(cfg.check_number_between("1883", 0, 65536));
    assert!(!cfg.check_number_between("70000", 0, 65536));
    assert!(!cfg.check_number_between("abc", 0, 65536));
}

#[test]
fn configuracion_reads_the_same_text() {
    let mut aux = Configuracion::new();
    assert_eq!(aux.set_config(TEST_CONFIG), Ok(true));
    assert_eq!(aux.get_address(), "127.0.0.1:1883");
}
