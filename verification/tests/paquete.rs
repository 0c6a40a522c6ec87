use mqtt_broker::server::paquete::{
    verificar_nombre_protocolo, verificar_version_protocolo, Paquetes,
};
use rand::Rng;

const CONEXION_SERVIDOR_INCORRECTO: u8 = 1;
const CONEXION_PROTOCOLO_RECHAZADO: u8 = 1;

#[test]
fn paquete_test01_nombre_protocolo_correto() {
    let nombre: [u8; 6] = [0x00, 0x04, 0x4D, 0x51, 0x54, 0x54];
    assert_eq!(verificar_nombre_protocolo(&nombre.to_vec()), Ok(()));
}

#[test]
fn paquete_test02_nombre_protocolo_incorrecto() {
    let nombre: [u8; 6] = [0x00, 0x04, 0x4E, 0x51, 0x54, 0x14];
    assert_eq!(
        verificar_nombre_protocolo(&nombre.to_vec()),
        Err(CONEXION_SERVIDOR_INCORRECTO)
    );
}

#[test]
fn paquete_test03_version_protocolo_incorrecta() {
    let version: u8 = 45;
    assert_eq!(
        verificar_version_protocolo(&version),
        Err(CONEXION_PROTOCOLO_RECHAZADO)
    );
}

#[test]
fn paquete_test04_get_tipo_connect_correcto() {
    let mut rng = rand::thread_rng();
    let header: u8 = 16 + rng.gen_range(0..16);
    let tipo: Paquetes = header.into();
    assert!(matches!(tipo, Paquetes::Connect));
}

#[test]
fn paquete_test05_get_tipo_distinto_a_connect() {
    let header: u8 = 32;
    let tipo: Paquetes = header.into();
    assert_ne!(matches!(tipo, Paquetes::Connect), true);
}

#[test]
fn paquete_unknown_nibble_reads_as_disconnect() {
    let tipo: Paquetes = 0x5Au8.into();
    assert!(matches!(tipo, Paquetes::Disconnect));
}

#[test]
fn client_paquete_types_match_their_bytes() {
    let tipo: mqtt_broker::client::paquete::Paquetes = 0x90u8.into();
    assert!(matches!(
        tipo,
        mqtt_broker::client::paquete::Paquetes::SubAck
    ));
    let byte: u8 = mqtt_broker::client::paquete::Paquetes::Subscribe.into();
    assert_eq!(byte, 0x82);
    mqtt_broker::client::paquete::leer_pingresp();
}
