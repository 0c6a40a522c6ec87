//! An older configuration reader kept alongside the current one: the same
//! `key = value` text, reading only the log file, the dump file and the
//! port.

use vstd::prelude::*;
use crate::server::configuration::{
    config_line_wf, config_line_value, config_value, DEFAULT_PORT,
};
use crate::text::{
    chars_of, dec_chars, parse_u32, split_chars, split_lines, split_lines_exec, split_on,
    string_from_chars, u16_dec_chars, views_of,
};

verus! {

/// The older configuration shape, with a dump file alongside the log file.
pub struct Configuracion {
    pub port: u16,
    pub dumpfile: String,
    pub logfile: String,
    pub ip: String,
}

/// The mathematical value of the older configuration.
#[verifier::ext_equal]
pub struct ConfiguracionV {
    pub port: u16,
    pub dumpfile: Seq<char>,
    pub logfile: Seq<char>,
    pub ip: Seq<char>,
}

impl View for Configuracion {
    type V = ConfiguracionV;

    open spec fn view(&self) -> ConfiguracionV {
        ConfiguracionV {
            port: self.port,
            dumpfile: self.dumpfile@,
            logfile: self.logfile@,
            ip: self.ip@,
        }
    }
}

/// The older configuration after reading a text: log file, port and dump
/// file, in that order; a line without `=` or a port that is not an
/// integer up to 65535 is refused.
pub open spec fn apply_configuracion(c: ConfiguracionV, content: Seq<char>) -> Result<
    ConfiguracionV,
    ConfiguracionV,
> {
    let lines = split_lines(content);
    if exists|i: int| 0 <= i < lines.len() && !config_line_wf(#[trigger] lines[i]) {
        Err(c)
    } else {
        let c1 = match config_value(lines, "logfile"@) {
            Some(v) => ConfiguracionV { logfile: v, ..c },
            None => c,
        };
        match config_value(lines, "port"@) {
            Some(v) => match parse_u32(v) {
                Some(x) => if x > 65535 {
                    Err(c1)
                } else {
                    Ok(apply_dumpfile(ConfiguracionV { port: x as u16, ..c1 }, lines))
                },
                None => Err(c1),
            },
            None => Ok(apply_dumpfile(c1, lines)),
        }
    }
}

/// The dump-file half of the older application order.
pub open spec fn apply_dumpfile(c: ConfiguracionV, lines: Seq<Seq<char>>) -> ConfiguracionV {
    match config_value(lines, "dumpfile"@) {
        Some(v) => ConfiguracionV { dumpfile: v, ..c },
        None => c,
    }
}

impl Configuracion {
    /// The default older configuration.
    pub fn new() -> (configuracion: Configuracion)
        ensures
            configuracion@ == (ConfiguracionV {
                port: DEFAULT_PORT,
                dumpfile: "dump.txt"@,
                logfile: "logfile.txt"@,
                ip: "127.0.0.1"@,
            }),
    {
        Configuracion {
            port: DEFAULT_PORT,
            dumpfile: String::from_str("dump.txt"),
            logfile: String::from_str("logfile.txt"),
            ip: String::from_str("127.0.0.1"),
        }
    }

    /// Read a configuration text and apply its values over the current
    /// ones.
    pub fn set_config(&mut self, config_text: &str) -> (result: Result<bool, String>)
        ensures
            match apply_configuracion(old(self)@, config_text@) {
                Ok(c) => result matches Ok(true) && final(self)@ == c,
                Err(c) => result is Err && final(self)@ == c,
            },
    {
        let chars = chars_of(config_text);
        let lines = split_lines_exec(&chars);
        let ghost lv = views_of(lines@);
        let mut i: usize = 0;

        #[verifier::loop_isolation(false)]
        while i < lines.len()
            invariant
                i <= lines@.len(),
                forall|j: int| 0 <= j < i ==> config_line_wf(#[trigger] lv[j]),
            decreases lines@.len() - i,
        {
            let pieces = split_chars(&lines[i], '=');
            proof {
                assert(views_of(pieces@) == split_on(lv[i as int], '='));
                assert(views_of(pieces@).len() == pieces@.len());
            }
            if pieces.len() < 2 {
                return Err("Error al intentar abrir el archivo".to_owned());
            }
            i = i + 1;
        }
        if let Some(logfile_value) = crate::server::configuration::find_config_value(
            &lines,
            "logfile",
        ) {
            self.logfile = string_from_chars(&logfile_value);
        }
        if let Some(port_value) = crate::server::configuration::find_config_value(
            &lines,
            "port",
        ) {
            match crate::text::parse_u32_exec(&port_value) {
                Some(x) => {
                    if x > 65535 {
                        return Err("Unvalid port".to_owned());
                    }
                    self.port = x as u16;
                },
                None => {
                    return Err("Unvalid port".to_owned());
                },
            }
        }
        if let Some(dumpfile_value) = crate::server::configuration::find_config_value(
            &lines,
            "dumpfile",
        ) {
            self.dumpfile = string_from_chars(&dumpfile_value);
        }
        Ok(true)
    }

    /// The listen address: the ip, a colon, and the port in decimal.
    pub fn get_address(&self) -> (address: String)
        ensures
            address@ == self.ip@ + ":"@ + dec_chars(self.port as nat),
    {
        let mut address = self.ip.clone();
        address.append(":");
        let digits = u16_dec_chars(self.port);
        let digits_text = string_from_chars(&digits);
        address.append(digits_text.as_str());
        address
    }
}

} // verus!
