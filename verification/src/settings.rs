//! The configuration snapshot and its precedence rule: command-line
//! flags over environment over file over built-in defaults. Reading
//! the sources is a caller's concern; the merge and the validations
//! are here.

use vstd::prelude::*;
use vstd::string::StringExecFns;

verus! {

pub const DEFAULT_BITCOIN: &'static str = "localhost";

pub const DEFAULT_BITCOIN_TLS: bool = false;

pub const DEFAULT_BITCOIN_RPC_PORT: u16 = 18443;

pub const DEFAULT_BITCOIN_ZMQ_BLOCK_ADDR: &'static str = "tcp://localhost:28332";

pub const DEFAULT_BITCOIN_ZMQ_TX_ADDR: &'static str = "tcp://localhost:28333";

pub const DEFAULT_BITCOIN_USER: &'static str = "user";

pub const DEFAULT_BITCOIN_PASSWORD: &'static str = "password";

pub const DEFAULT_BIND: &'static str = "[::1]:50051";

pub const DEFAULT_BANNER: &'static str = "Welcome to Photon!";

pub const DEFAULT_DONATION_ADDRESS: &'static str = "";

pub const DEFAULT_DB_PATH: &'static str = ".photon/db";

/// A failure of configuration handling.
#[derive(Debug)]
pub enum SettingsError {
    /// A source could not be read or merged.
    Config,
    /// One of the two TLS paths is missing.
    TlsMaterial,
    /// A command-line value did not parse.
    CliParse,
}

/// The configuration snapshot.
pub struct Settings {
    pub bitcoin: String,
    pub bitcoin_tls: bool,
    pub bitcoin_rpc_port: u16,
    pub bitcoin_zmq_block_addr: String,
    pub bitcoin_zmq_tx_addr: String,
    pub bitcoin_user: String,
    pub bitcoin_password: String,
    pub db_path: String,
    pub bind: String,
    pub banner: String,
    pub donation_address: String,
    pub tls_pem_path: Option<String>,
    pub tls_key_path: Option<String>,
}

/// One source's view of the options: what it sets, nothing more.
pub struct SettingsOverlay {
    pub bitcoin: Option<String>,
    pub bitcoin_tls: Option<bool>,
    pub bitcoin_rpc_port: Option<u16>,
    pub bitcoin_zmq_block_addr: Option<String>,
    pub bitcoin_zmq_tx_addr: Option<String>,
    pub bitcoin_user: Option<String>,
    pub bitcoin_password: Option<String>,
    pub db_path: Option<String>,
    pub bind: Option<String>,
    pub banner: Option<String>,
    pub donation_address: Option<String>,
    pub tls_pem_path: Option<String>,
    pub tls_key_path: Option<String>,
}

impl SettingsOverlay {
    /// An overlay that sets nothing.
    pub fn empty() -> (r: SettingsOverlay)
        ensures
            r.bitcoin is None,
            r.bitcoin_tls is None,
            r.bitcoin_rpc_port is None,
            r.bitcoin_zmq_block_addr is None,
            r.bitcoin_zmq_tx_addr is None,
            r.bitcoin_user is None,
            r.bitcoin_password is None,
            r.db_path is None,
            r.bind is None,
            r.banner is None,
            r.donation_address is None,
            r.tls_pem_path is None,
            r.tls_key_path is None,
    {
        SettingsOverlay {
            bitcoin: None,
            bitcoin_tls: None,
            bitcoin_rpc_port: None,
            bitcoin_zmq_block_addr: None,
            bitcoin_zmq_tx_addr: None,
            bitcoin_user: None,
            bitcoin_password: None,
            db_path: None,
            bind: None,
            banner: None,
            donation_address: None,
            tls_pem_path: None,
            tls_key_path: None,
        }
    }
}

/// The highest-precedence value set for an option: flags, then
/// environment, then file, then the default.
pub open spec fn pick<A>(cli: Option<A>, env: Option<A>, file: Option<A>, dflt: A) -> A {
    match cli {
        Some(x) => x,
        None => match env {
            Some(x) => x,
            None => match file {
                Some(x) => x,
                None => dflt,
            },
        },
    }
}

/// The text of the highest-precedence value set for a text option.
pub open spec fn pick_str(
    cli: Option<String>,
    env: Option<String>,
    file: Option<String>,
    dflt: Seq<char>,
) -> Seq<char> {
    match cli {
        Some(x) => x@,
        None => match env {
            Some(x) => x@,
            None => match file {
                Some(x) => x@,
                None => dflt,
            },
        },
    }
}

/// The first source that sets an optional option, if any.
pub open spec fn first_set<A>(cli: Option<A>, env: Option<A>, file: Option<A>) -> Option<A> {
    match cli {
        Some(x) => Some(x),
        None => match env {
            Some(x) => Some(x),
            None => file,
        },
    }
}

/// Take the highest-precedence value set for an option.
pub fn pick_val<A>(cli: Option<A>, env: Option<A>, file: Option<A>, dflt: A) -> (r: A)
    ensures
        r == pick(cli, env, file, dflt),
{
    match cli {
        Some(x) => x,
        None => match env {
            Some(x) => x,
            None => match file {
                Some(x) => x,
                None => dflt,
            },
        },
    }
}

/// Take the first source that sets an optional option.
pub fn first_set_val<A>(cli: Option<A>, env: Option<A>, file: Option<A>) -> (r: Option<A>)
    ensures
        r == first_set(cli, env, file),
{
    match cli {
        Some(x) => Some(x),
        None => match env {
            Some(x) => Some(x),
            None => file,
        },
    }
}

impl Settings {
    /// Merge the three sources over the built-in defaults, highest
    /// precedence first: flags, environment, file. The default store
    /// location under the home directory is the caller's, as only
    /// the caller can name the home.
    pub fn resolve(
        cli: SettingsOverlay,
        env: SettingsOverlay,
        file: SettingsOverlay,
        default_db_path: String,
    ) -> (r: Settings)
        ensures
            r.bitcoin@ == pick_str(cli.bitcoin, env.bitcoin, file.bitcoin, DEFAULT_BITCOIN@),
            r.bitcoin_tls == pick(
                cli.bitcoin_tls,
                env.bitcoin_tls,
                file.bitcoin_tls,
                DEFAULT_BITCOIN_TLS,
            ),
            r.bitcoin_rpc_port == pick(
                cli.bitcoin_rpc_port,
                env.bitcoin_rpc_port,
                file.bitcoin_rpc_port,
                DEFAULT_BITCOIN_RPC_PORT,
            ),
            r.bitcoin_zmq_block_addr@ == pick_str(
                cli.bitcoin_zmq_block_addr,
                env.bitcoin_zmq_block_addr,
                file.bitcoin_zmq_block_addr,
                DEFAULT_BITCOIN_ZMQ_BLOCK_ADDR@,
            ),
            r.bitcoin_zmq_tx_addr@ == pick_str(
                cli.bitcoin_zmq_tx_addr,
                env.bitcoin_zmq_tx_addr,
                file.bitcoin_zmq_tx_addr,
                DEFAULT_BITCOIN_ZMQ_TX_ADDR@,
            ),
            r.bitcoin_user@ == pick_str(
                cli.bitcoin_user,
                env.bitcoin_user,
                file.bitcoin_user,
                DEFAULT_BITCOIN_USER@,
            ),
            r.bitcoin_password@ == pick_str(
                cli.bitcoin_password,
                env.bitcoin_password,
                file.bitcoin_password,
                DEFAULT_BITCOIN_PASSWORD@,
            ),
            r.db_path@ == pick_str(cli.db_path, env.db_path, file.db_path, default_db_path@),
            r.bind@ == pick_str(cli.bind, env.bind, file.bind, DEFAULT_BIND@),
            r.banner@ == pick_str(cli.banner, env.banner, file.banner, DEFAULT_BANNER@),
            r.donation_address@ == pick_str(
                cli.donation_address,
                env.donation_address,
                file.donation_address,
                DEFAULT_DONATION_ADDRESS@,
            ),
            r.tls_pem_path == first_set(cli.tls_pem_path, env.tls_pem_path, file.tls_pem_path),
            r.tls_key_path == first_set(cli.tls_key_path, env.tls_key_path, file.tls_key_path),
    {
        Settings {
            bitcoin: pick_val(cli.bitcoin, env.bitcoin, file.bitcoin, String::from_str(DEFAULT_BITCOIN)),
            bitcoin_tls: pick_val(
                cli.bitcoin_tls,
                env.bitcoin_tls,
                file.bitcoin_tls,
                DEFAULT_BITCOIN_TLS,
            ),
            bitcoin_rpc_port: pick_val(
                cli.bitcoin_rpc_port,
                env.bitcoin_rpc_port,
                file.bitcoin_rpc_port,
                DEFAULT_BITCOIN_RPC_PORT,
            ),
            bitcoin_zmq_block_addr: pick_val(
                cli.bitcoin_zmq_block_addr,
                env.bitcoin_zmq_block_addr,
                file.bitcoin_zmq_block_addr,
                String::from_str(DEFAULT_BITCOIN_ZMQ_BLOCK_ADDR),
            ),
            bitcoin_zmq_tx_addr: pick_val(
                cli.bitcoin_zmq_tx_addr,
                env.bitcoin_zmq_tx_addr,
                file.bitcoin_zmq_tx_addr,
                String::from_str(DEFAULT_BITCOIN_ZMQ_TX_ADDR),
            ),
            bitcoin_user: pick_val(
                cli.bitcoin_user,
                env.bitcoin_user,
                file.bitcoin_user,
                String::from_str(DEFAULT_BITCOIN_USER),
            ),
            bitcoin_password: pick_val(
                cli.bitcoin_password,
                env.bitcoin_password,
                file.bitcoin_password,
                String::from_str(DEFAULT_BITCOIN_PASSWORD),
            ),
            db_path: pick_val(cli.db_path, env.db_path, file.db_path, default_db_path),
            bind: pick_val(cli.bind, env.bind, file.bind, String::from_str(DEFAULT_BIND)),
            banner: pick_val(cli.banner, env.banner, file.banner, String::from_str(DEFAULT_BANNER)),
            donation_address: pick_val(
                cli.donation_address,
                env.donation_address,
                file.donation_address,
                String::from_str(DEFAULT_DONATION_ADDRESS),
            ),
            tls_pem_path: first_set_val(cli.tls_pem_path, env.tls_pem_path, file.tls_pem_path),
            tls_key_path: first_set_val(cli.tls_key_path, env.tls_key_path, file.tls_key_path),
        }
    }

    /// The TLS material: both paths, or neither; one alone is a
    /// configuration fault.
    pub fn tls_material(&self) -> (r: Result<Option<(String, String)>, SettingsError>)
        ensures
            match (self.tls_pem_path, self.tls_key_path) {
                (Some(p), Some(k)) => r matches Ok(Some(m)) && m.0@ == p@ && m.1@ == k@,
                (None, None) => r matches Ok(None),
                _ => r matches Err(SettingsError::TlsMaterial),
            },
    {
        match (&self.tls_pem_path, &self.tls_key_path) {
            (Some(p), Some(k)) => Ok(Some((p.clone(), k.clone()))),
            (None, None) => Ok(None),
            _ => Err(SettingsError::TlsMaterial),
        }
    }
}

/// Whether every byte is an ASCII digit.
pub open spec fn all_digits(s: Seq<u8>) -> bool {
    forall|i: int| 0 <= i < s.len() ==> 0x30 <= #[trigger] s[i] <= 0x39
}

/// The number a string of ASCII digits denotes.
pub open spec fn dec_val(s: Seq<u8>) -> int
    decreases s.len(),
{
    if s.len() == 0 {
        0
    } else {
        dec_val(s.drop_last()) * 10 + (s.last() - 0x30)
    }
}

/// The digit part of a decimal literal: an optional leading plus
/// sign is allowed.
pub open spec fn digits_part(s: Seq<u8>) -> Seq<u8> {
    if s.len() > 0 && s[0] == 0x2b {
        s.drop_first()
    } else {
        s
    }
}

/// Parse the height given to the resync-from option: an unsigned
/// 32-bit decimal, or nothing when the text is no such number.
pub fn parse_sync_from(s: &Vec<u8>) -> (r: Option<u32>)
    ensures
        r is Some <==> digits_part(s@).len() > 0 && all_digits(digits_part(s@)) && dec_val(
            digits_part(s@),
        ) <= u32::MAX,
        r matches Some(v) ==> v == dec_val(digits_part(s@)),
{
    let n = s.len();
    let start: usize = if n > 0 && s[0] == 0x2b {
        1
    } else {
        0
    };
    let ghost d = digits_part(s@);
    proof {
        if start == 1 {
            assert(d =~= s@.drop_first());
        } else {
            assert(d =~= s@);
        }
    }
    if n == start {
        return None;
    }
    let mut val: u32 = 0;
    let mut i: usize = start;
    while i < n
        invariant
            start <= i <= n,
            n == s@.len(),
            d == digits_part(s@),
            start == 1 ==> d =~= s@.drop_first(),
            start == 0 ==> d =~= s@,
            start <= 1,
            forall|j: int| start <= j < i ==> 0x30 <= #[trigger] s@[j] <= 0x39,
            val == dec_val(d.take(i - start)),
        decreases n - i,
    {
        let c = s[i];
        if c < 0x30 || c > 0x39 {
            assert(d[i - start] == s@[i as int]);
            assert(!all_digits(d));
            return None;
        }
        let digit = (c - 0x30) as u32;
        if val > (u32::MAX - digit) / 10 {
            proof {
                assert(d.take(i - start + 1).drop_last() =~= d.take(i - start));
                assert(d.take(i - start + 1).last() == d[i - start]);
                assert(d[i - start] == s@[i as int]);
                assert(val * 10 + digit > u32::MAX) by (nonlinear_arith)
                    requires
                        val > (u32::MAX - digit) / 10,
                        digit <= 9,
                ;
                if all_digits(d) {
                    lemma_dec_val_prefix(d, i - start + 1);
                }
            }
            return None;
        }
        proof {
            assert(val * 10 + digit <= u32::MAX) by (nonlinear_arith)
                requires
                    val <= (u32::MAX - digit) / 10,
                    digit <= 9,
            ;
            assert(d.take(i - start + 1).drop_last() =~= d.take(i - start));
            assert(d.take(i - start + 1).last() == d[i - start]);
            assert(d[i - start] == s@[i as int]);
        }
        val = val * 10 + digit;
        i = i + 1;
    }
    proof {
        assert(d.take(n - start) =~= d);
    }
    Some(val)
}

/// A string of digits denotes a non-negative number.
pub proof fn lemma_dec_val_nonneg(s: Seq<u8>)
    requires
        all_digits(s),
    ensures
        dec_val(s) >= 0,
    decreases s.len(),
{
    if s.len() > 0 {
        assert(forall|i: int|
            0 <= i < s.drop_last().len() ==> 0x30 <= #[trigger] s.drop_last()[i] <= 0x39);
        lemma_dec_val_nonneg(s.drop_last());
        assert(dec_val(s.drop_last()) * 10 >= 0) by (nonlinear_arith)
            requires
                dec_val(s.drop_last()) >= 0,
        ;
    }
}

/// A digit string denotes at least as much as any of its prefixes.
pub proof fn lemma_dec_val_prefix(s: Seq<u8>, k: int)
    requires
        0 <= k <= s.len(),
        all_digits(s),
    ensures
        dec_val(s) >= dec_val(s.take(k)),
    decreases s.len() - k,
{
    if k < s.len() {
        assert(s.take(k + 1).drop_last() =~= s.take(k));
        assert(s.take(k + 1).last() == s[k]);
        assert(forall|i: int|
            0 <= i < s.take(k).len() ==> 0x30 <= #[trigger] s.take(k)[i] <= 0x39);
        lemma_dec_val_nonneg(s.take(k));
        assert(dec_val(s.take(k + 1)) == dec_val(s.take(k)) * 10 + (s[k] - 0x30));
        assert(dec_val(s.take(k)) * 10 >= dec_val(s.take(k))) by (nonlinear_arith)
            requires
                dec_val(s.take(k)) >= 0,
        ;
        lemma_dec_val_prefix(s, k + 1);
    } else {
        assert(s.take(k) =~= s);
    }
}

} // verus!
