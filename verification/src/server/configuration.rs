//! The broker configuration: a `key = value` text with the listen address,
//! the log file, and whether a password is required.  Keys are lowercased
//! and lose their spaces; values lose leading and trailing spaces; for a
//! repeated key the last line wins; unknown keys are ignored.

use vstd::prelude::*;
use crate::text::{
    chars_of, char_vecs_equal, dec_chars, lower_chars, lower_chars_exec, parse_u32,
    parse_u32_exec, remove_spaces, remove_spaces_exec, split_chars, split_lines,
    split_lines_exec, split_on, string_from_chars, sub_vec, trim_spaces, trim_spaces_exec,
    u16_dec_chars, views_of,
};

verus! {

pub const DEFAULT_PORT: u16 = 7666;

/// The broker's configuration.
pub struct Configuration {
    pub port: u16,
    pub logfile: String,
    pub ip: String,
    pub password: bool,
}

/// The mathematical value of a configuration.
#[verifier::ext_equal]
pub struct ConfigurationV {
    pub port: u16,
    pub logfile: Seq<char>,
    pub ip: Seq<char>,
    pub password: bool,
}

impl View for Configuration {
    type V = ConfigurationV;

    open spec fn view(&self) -> ConfigurationV {
        ConfigurationV {
            port: self.port,
            logfile: self.logfile@,
            ip: self.ip@,
            password: self.password,
        }
    }
}

/// Whether a configuration line carries an `=`.
pub open spec fn config_line_wf(line: Seq<char>) -> bool {
    split_on(line, '=').len() >= 2
}

/// The key of a configuration line: lowercased, spaces removed.
pub open spec fn config_line_key(line: Seq<char>) -> Seq<char> {
    remove_spaces(lower_chars(split_on(line, '=')[0]))
}

/// The value of a configuration line: the piece between the first and
/// second `=`, without leading and trailing spaces.
pub open spec fn config_line_value(line: Seq<char>) -> Seq<char> {
    trim_spaces(split_on(line, '=')[1])
}

/// The value the configuration text gives a key: the last line whose key
/// matches decides.
pub open spec fn config_value(lines: Seq<Seq<char>>, key: Seq<char>) -> Option<Seq<char>>
    decreases lines.len(),
{
    if lines.len() == 0 {
        None
    } else if config_line_key(lines.last()) == key {
        Some(config_line_value(lines.last()))
    } else {
        config_value(lines.drop_last(), key)
    }
}

/// The configuration after reading a text, applied to the current state in
/// the fixed order log file, port, address, password; `Err` carries the
/// state left behind when a value is refused, and a line without `=`
/// refuses the whole text before anything is applied.
pub open spec fn apply_config(c: ConfigurationV, content: Seq<char>) -> Result<
    ConfigurationV,
    ConfigurationV,
> {
    let lines = split_lines(content);
    if exists|i: int| 0 <= i < lines.len() && !config_line_wf(#[trigger] lines[i]) {
        Err(c)
    } else {
        let c1 = match config_value(lines, "logfile"@) {
            Some(v) => ConfigurationV { logfile: v, ..c },
            None => c,
        };
        match config_value(lines, "port"@) {
            Some(v) => match parse_u32(v) {
                Some(x) => if x > 65535 {
                    Err(c1)
                } else {
                    let c2 = ConfigurationV { port: x as u16, ..c1 };
                    apply_config_tail(c2, lines)
                },
                None => Err(c1),
            },
            None => apply_config_tail(c1, lines),
        }
    }
}

/// The address and password halves of the application order.
pub open spec fn apply_config_tail(c: ConfigurationV, lines: Seq<Seq<char>>) -> Result<
    ConfigurationV,
    ConfigurationV,
> {
    let c3 = match config_value(lines, "ip"@) {
        Some(v) => ConfigurationV { ip: v, ..c },
        None => c,
    };
    match config_value(lines, "password"@) {
        Some(v) => match parse_u32(v) {
            Some(x) => Ok(
                ConfigurationV {
                    password: if x == 0 {
                        false
                    } else {
                        c3.password
                    },
                    ..c3
                },
            ),
            None => Err(c3),
        },
        None => Ok(c3),
    }
}

/// Find the value the configuration lines give a key.
pub fn find_config_value(lines: &Vec<Vec<char>>, key: &str) -> (value: Option<Vec<char>>)
    requires
        forall|i: int| 0 <= i < lines@.len() ==> config_line_wf(#[trigger] views_of(lines@)[i]),
    ensures
        match value {
            Some(v) => config_value(views_of(lines@), key@) == Some(v@),
            None => config_value(views_of(lines@), key@) is None,
        },
{
    let key_chars = chars_of(key);
    let ghost lv = views_of(lines@);
    let mut result: Option<Vec<char>> = None;
    let mut i: usize = 0;

    proof {
        assert(lv.take(0) =~= Seq::<Seq<char>>::empty());
    }
    #[verifier::loop_isolation(false)]
    while i < lines.len()
        invariant
            i <= lines@.len(),
            match result {
                Some(v) => config_value(lv.take(i as int), key@) == Some(v@),
                None => config_value(lv.take(i as int), key@) is None,
            },
        decreases lines@.len() - i,
    {
        let line = &lines[i];
        let pieces = split_chars(line, '=');
        proof {
            assert(views_of(pieces@) == split_on(lv[i as int], '='));
            assert(lv[i as int] == line@);
            assert(config_line_wf(lv[i as int]));
            assert(views_of(pieces@).len() == pieces@.len());
        }
        let lowered = lower_chars_exec(&pieces[0]);
        let line_key = remove_spaces_exec(&lowered);
        proof {
            assert(pieces@[0]@ == split_on(lv[i as int], '=')[0]);
            assert(line_key@ == config_line_key(lv[i as int]));
            assert(lv.take(i as int + 1).last() == lv[i as int]);
            assert(lv.take(i as int + 1).drop_last() =~= lv.take(i as int));
        }
        if char_vecs_equal(&line_key, &key_chars) {
            let value = trim_spaces_exec(&pieces[1]);
            proof {
                assert(pieces@[1]@ == split_on(lv[i as int], '=')[1]);
                assert(value@ == config_line_value(lv[i as int]));
            }
            result = Some(value);
        }
        i = i + 1;
    }
    proof {
        assert(lv.take(lines@.len() as int) =~= lv);
    }
    result
}

impl Configuration {
    /// The default configuration: local address, default port, log file
    /// `logfile.txt`, password required.
    pub fn new() -> (configuration: Configuration)
        ensures
            configuration@ == (ConfigurationV {
                port: DEFAULT_PORT,
                logfile: "logfile.txt"@,
                ip: "127.0.0.1"@,
                password: true,
            }),
    {
        Configuration {
            port: DEFAULT_PORT,
            logfile: String::from_str("logfile.txt"),
            ip: String::from_str("127.0.0.1"),
            password: true,
        }
    }

    /// Whether the text names an integer between the bounds.
    pub fn check_number_between(&mut self, number: &str, bottom: u32, top: u32) -> (ok: bool)
        ensures
            *final(self) == *old(self),
            ok == match parse_u32(number@) {
                Some(x) => bottom <= x <= top,
                None => false,
            },
    {
        let digits = chars_of(number);
        match parse_u32_exec(&digits) {
            Some(x) => bottom <= x && x <= top,
            None => false,
        }
    }

    /// Read a configuration text and apply its values over the current
    /// ones.  A line without `=`, a port that is not an integer up to
    /// 65535, or a password value that is not an integer is refused.
    pub fn set_config(&mut self, config_text: &str) -> (result: Result<(), String>)
        ensures
            match apply_config(old(self)@, config_text@) {
                Ok(c) => result is Ok && final(self)@ == c,
                Err(c) => result is Err && final(self)@ == c,
            },
    {
        let chars = chars_of(config_text);
        let lines = split_lines_exec(&chars);
        let ghost lv = views_of(lines@);
        let mut i: usize = 0;

        #[verifier::loop_isolation(false)]
        while i < lines.len()
            invariant
                i <= lines@.len(),
                forall|j: int| 0 <= j < i ==> config_line_wf(#[trigger] lv[j]),
            decreases lines@.len() - i,
        {
            let pieces = split_chars(&lines[i], '=');
            proof {
                assert(views_of(pieces@) == split_on(lv[i as int], '='));
                assert(views_of(pieces@).len() == pieces@.len());
            }
            if pieces.len() < 2 {
                return Err("Error when trying to open the file".to_owned());
            }
            i = i + 1;
        }
        if let Some(logfile_value) = find_config_value(&lines, "logfile") {
            self.logfile = string_from_chars(&logfile_value);
        }
        if let Some(port_value) = find_config_value(&lines, "port") {
            match parse_u32_exec(&port_value) {
                Some(x) => {
                    if x > 65535 {
                        return Err("Unvalid port".to_owned());
                    }
                    self.port = x as u16;
                },
                None => {
                    return Err("Unvalid port".to_owned());
                },
            }
        }
        if let Some(ip_value) = find_config_value(&lines, "ip") {
            self.ip = string_from_chars(&ip_value);
        }
        if let Some(password_value) = find_config_value(&lines, "password") {
            match parse_u32_exec(&password_value) {
                Some(x) => {
                    if x == 0 {
                        self.password = false;
                    }
                },
                None => {
                    return Err("Error while parsing password from config file".to_owned());
                },
            }
        }
        Ok(())
    }

    /// The listen address: the ip, a colon, and the port in decimal.
    pub fn get_address(&self) -> (address: String)
        ensures
            address@ == self.ip@ + ":"@ + dec_chars(self.port as nat),
    {
        let mut address = self.ip.clone();
        address.append(":");
        let digits = u16_dec_chars(self.port);
        let digits_text = string_from_chars(&digits);
        address.append(digits_text.as_str());
        address
    }

    /// The configured log file path.
    pub fn get_log_file(&self) -> (logfile: String)
        ensures
            logfile@ == self.logfile@,
    {
        self.logfile.clone()
    }
}

} // verus!
