//! The command line, and what follows from it for the node.

use vstd::prelude::*;
use vstd::string::*;

use crate::text::{
    chars_of, decimal, law_numbers_are_read_as_they_are_written, law_only_digits_are_a_number,
    opt_string, parse_unsigned, parsed_unsigned, same_text, texts,
};

verus! {

/// What the command line asks for.
#[derive(Debug)]
pub struct Config {
    /// Where the raw-TCP bearer listens.
    pub listen: Option<String>,
    /// Where the WebSocket bearer listens.
    pub ws: Option<String>,
    /// The file of the local store.
    pub db: String,
    /// The file of the identity's seed.
    pub identity_file: Option<String>,
    /// Relays to keep a TCP link to.
    pub peers: Vec<String>,
    /// The project of the durable store.
    pub firestore: Option<String>,
    /// The region that this relay serves.
    pub region: Option<String>,
    /// The address that this relay is reached at.
    pub advertise: Option<String>,
    /// How many relays that are online to dial; `0` dials none.
    pub mesh_fanout: usize,
    /// Arguments that mean nothing here.
    pub ignored: Vec<String>,
}

/// [`Config`] as texts and numbers.
pub struct ConfigModel {
    pub listen: Option<Seq<char>>,
    pub ws: Option<Seq<char>>,
    pub db: Seq<char>,
    pub identity_file: Option<Seq<char>>,
    pub peers: Seq<Seq<char>>,
    pub firestore: Option<Seq<char>>,
    pub region: Option<Seq<char>>,
    pub advertise: Option<Seq<char>>,
    pub mesh_fanout: nat,
    pub ignored: Seq<Seq<char>>,
}

impl View for Config {
    type V = ConfigModel;

    open spec fn view(&self) -> ConfigModel {
        ConfigModel {
            listen: opt_string(self.listen),
            ws: opt_string(self.ws),
            db: self.db@,
            identity_file: opt_string(self.identity_file),
            peers: texts(self.peers@),
            firestore: opt_string(self.firestore),
            region: opt_string(self.region),
            advertise: opt_string(self.advertise),
            mesh_fanout: self.mesh_fanout as nat,
            ignored: texts(self.ignored@),
        }
    }
}

/// What holds where the command line says nothing.
pub open spec fn unset() -> ConfigModel {
    ConfigModel {
        listen: None,
        ws: None,
        db: "hop-relay.db"@,
        identity_file: None,
        peers: Seq::empty(),
        firestore: None,
        region: None,
        advertise: None,
        mesh_fanout: 0,
        ignored: Seq::empty(),
    }
}

/// The number that a fan-out is given as; `0` where it is none.
pub open spec fn fanout_of(value: Option<Seq<char>>) -> nat {
    match value {
        Some(v) => match parsed_unsigned(v, usize::MAX as nat) {
            Some(n) => n,
            None => 0,
        },
        None => 0,
    }
}

/// What `cfg` becomes by the flag `flag` with the argument behind it, if there is one; `None`
/// where there is no such flag.
pub open spec fn with_flag(
    cfg: ConfigModel,
    flag: Seq<char>,
    value: Option<Seq<char>>,
) -> Option<ConfigModel> {
    if flag == "--listen"@ {
        Some(ConfigModel { listen: value, ..cfg })
    } else if flag == "--ws"@ {
        Some(ConfigModel { ws: value, ..cfg })
    } else if flag == "--db"@ {
        Some(
            ConfigModel {
                db: match value {
                    Some(v) => v,
                    None => cfg.db,
                },
                ..cfg
            },
        )
    } else if flag == "--identity-file"@ {
        Some(ConfigModel { identity_file: value, ..cfg })
    } else if flag == "--firestore"@ {
        Some(ConfigModel { firestore: value, ..cfg })
    } else if flag == "--region"@ {
        Some(ConfigModel { region: value, ..cfg })
    } else if flag == "--advertise"@ {
        Some(ConfigModel { advertise: value, ..cfg })
    } else if flag == "--mesh-fanout"@ {
        Some(ConfigModel { mesh_fanout: fanout_of(value), ..cfg })
    } else if flag == "--peer"@ {
        Some(
            ConfigModel {
                peers: match value {
                    Some(v) => cfg.peers.push(v),
                    None => cfg.peers,
                },
                ..cfg
            },
        )
    } else {
        None
    }
}

/// What `cfg` becomes by `args`, from left to right: each flag takes the argument behind it, and
/// what is no flag is passed over.
pub open spec fn with_args(cfg: ConfigModel, args: Seq<Seq<char>>) -> ConfigModel
    decreases args.len(),
{
    if args.len() == 0 {
        cfg
    } else {
        let value = if args.len() > 1 {
            Some(args[1])
        } else {
            None
        };
        match with_flag(cfg, args[0], value) {
            Some(next) => with_args(
                next,
                if args.len() > 1 {
                    args.skip(2)
                } else {
                    Seq::empty()
                },
            ),
            None => with_args(
                ConfigModel { ignored: cfg.ignored.push(args[0]), ..cfg },
                args.skip(1),
            ),
        }
    }
}

/// `cfg`, listening on the default TCP port where it listens nowhere else.
pub open spec fn with_default_bearer(cfg: ConfigModel) -> ConfigModel {
    if cfg.listen is None && cfg.ws is None {
        ConfigModel { listen: Some("0.0.0.0:9443"@), ..cfg }
    } else {
        cfg
    }
}

/// Sets what `flag` stands for to `value`; says whether there is such a flag.
fn set_flag(cfg: &mut Config, flag: &str, value: Option<String>) -> (known: bool)
    ensures
        known ==> with_flag(old(cfg)@, flag@, opt_string(value)) == Some(final(cfg)@),
        !known ==> with_flag(old(cfg)@, flag@, opt_string(value)) is None && *final(cfg) == *old(cfg),
{
    if same_text(flag, "--listen") {
        cfg.listen = value;
    } else if same_text(flag, "--ws") {
        cfg.ws = value;
    } else if same_text(flag, "--db") {
        if let Some(d) = value {
            cfg.db = d;
        }
    } else if same_text(flag, "--identity-file") {
        cfg.identity_file = value;
    } else if same_text(flag, "--firestore") {
        cfg.firestore = value;
    } else if same_text(flag, "--region") {
        cfg.region = value;
    } else if same_text(flag, "--advertise") {
        cfg.advertise = value;
    } else if same_text(flag, "--mesh-fanout") {
        cfg.mesh_fanout = match value {
            Some(v) => match parse_unsigned(v.as_str(), usize::MAX as u64) {
                Some(n) => n as usize,
                None => 0,
            },
            None => 0,
        };
    } else if same_text(flag, "--peer") {
        if let Some(p) = value {
            let ghost had = cfg.peers@;
            cfg.peers.push(p);
            assert(texts(cfg.peers@) =~= texts(had).push(p@));
        }
    } else {
        return false;
    }
    true
}

/// Reads the command line, without the program's name.
pub fn parse_args(args: Vec<String>) -> (cfg: Config)
    ensures
        cfg@ == with_default_bearer(with_args(unset(), texts(args@))),
{
    let mut cfg = Config {
        listen: None,
        ws: None,
        db: "hop-relay.db".to_owned(),
        identity_file: None,
        peers: Vec::new(),
        firestore: None,
        region: None,
        advertise: None,
        mesh_fanout: 0,
        ignored: Vec::new(),
    };
    assert(texts(cfg.peers@) =~= Seq::empty());
    assert(texts(cfg.ignored@) =~= Seq::empty());
    let ghost all = texts(args@);
    let mut i: usize = 0;
    assert(all.skip(0) =~= all);
    while i < args.len()
        invariant
            i <= args.len(),
            all == texts(args@),
            with_args(cfg@, all.skip(i as int)) == with_args(unset(), all),
        decreases args.len() - i,
    {
        let ghost rest = all.skip(i as int);
        assert(rest[0] == args@[i as int]@);
        let more: bool = args.len() - i > 1;
        let value: Option<String> = if more {
            assert(rest[1] == args@[i + 1]@);
            Some(args[i + 1].clone())
        } else {
            None
        };
        if set_flag(&mut cfg, args[i].as_str(), value) {
            if more {
                assert(rest.skip(2) =~= all.skip(i + 2));
                i += 2;
            } else {
                assert(all.skip(i + 1) =~= Seq::empty());
                i += 1;
            }
        } else {
            let ghost had = cfg.ignored@;
            cfg.ignored.push(args[i].clone());
            proof {
                assert(texts(cfg.ignored@) =~= texts(had).push(rest[0]));
                assert(rest.skip(1) =~= all.skip(i + 1));
            }
            i += 1;
        }
    }
    assert(all.skip(i as int) =~= Seq::empty());
    if cfg.listen.is_none() && cfg.ws.is_none() {
        cfg.listen = Some("0.0.0.0:9443".to_owned());
    }
    cfg
}

/// `url` without its WebSocket scheme.
pub open spec fn without_scheme(url: Seq<char>) -> Seq<char> {
    if "wss://"@.is_prefix_of(url) {
        url.skip("wss://"@.len() as int)
    } else if "ws://"@.is_prefix_of(url) {
        url.skip("ws://"@.len() as int)
    } else {
        url
    }
}

/// Is `host` what stands before the first slash of `s`?
pub open spec fn before_slash(s: Seq<char>, host: Seq<char>) -> bool {
    &&& host.is_prefix_of(s)
    &&& !host.contains('/')
    &&& host.len() == s.len() || s[host.len() as int] == '/'
}

/// Does `s` begin with `lead`? Then the number of characters of `lead`.
fn begins_with(s: &Vec<char>, lead: &str) -> (res: Option<usize>)
    ensures
        match res {
            Some(n) => lead@.is_prefix_of(s@) && n == lead@.len(),
            None => !lead@.is_prefix_of(s@),
        },
{
    let want = chars_of(lead);
    if want.len() > s.len() {
        return None;
    }
    let mut i: usize = 0;
    while i < want.len()
        invariant
            want@ == lead@,
            i <= want.len() <= s.len(),
            forall|j: int| 0 <= j < i ==> want@[j] == s@[j],
        decreases want.len() - i,
    {
        if want[i] != s[i] {
            assert(s@.subrange(0, lead@.len() as int)[i as int] == s@[i as int]);
            return None;
        }
        i += 1;
    }
    assert(lead@ =~= s@.subrange(0, lead@.len() as int));
    Some(want.len())
}

/// The host of a `wss://` or `ws://` address, by which a relay is named.
pub fn host_of(url: &str) -> (host: String)
    ensures
        before_slash(without_scheme(url@), host@),
{
    let chars = chars_of(url);
    let start: usize = match begins_with(&chars, "wss://") {
        Some(n) => n,
        None => match begins_with(&chars, "ws://") {
            Some(n) => n,
            None => 0,
        },
    };
    let ghost rest = without_scheme(url@);
    assert(rest =~= chars@.skip(start as int));
    let mut end: usize = start;
    while end < chars.len() && chars[end] != '/'
        invariant
            start <= end <= chars.len(),
            forall|j: int| start <= j < end ==> chars@[j] != '/',
        decreases chars.len() - end,
    {
        end += 1;
    }
    let host = url.substring_char(start, end).to_owned();
    proof {
        assert(host@ =~= rest.take(end - start));
        assert forall|j: int| 0 <= j < host@.len() implies host@[j] != '/' by {
            assert(chars@[start + j] != '/');
        }
        assert(end < chars@.len() ==> rest[end - start] == chars@[end as int]);
    }
    host
}

/// What sets a cloud relay's node apart from a phone's.
#[derive(Debug)]
pub struct NodeSettings {
    /// How many learned routes it keeps.
    pub route_capacity: usize,
    /// How many bundles in transit it keeps.
    pub max_relayed: usize,
    /// What it is called.
    pub name: Option<String>,
}

/// The settings of a cloud relay's node, which is called by the host that it is reached at.
pub fn configure_node(advertise: Option<&str>) -> (res: NodeSettings)
    ensures
        res.route_capacity == 200_000,
        res.max_relayed == 8192,
        match advertise {
            Some(url) => res.name matches Some(host) && before_slash(
                without_scheme(url@),
                host@,
            ),
            None => res.name is None,
        },
{
    NodeSettings {
        route_capacity: 200_000,
        max_relayed: 8192,
        name: match advertise {
            Some(url) => Some(host_of(url)),
            None => None,
        },
    }
}

/// A relay always listens somewhere; and it listens on the default TCP port without being told to
/// only where it is told of no bearer at all.
pub proof fn law_some_bearer_always(args: Seq<Seq<char>>)
    ensures
        ({
            let asked = with_args(unset(), args);
            let cfg = with_default_bearer(asked);
            &&& cfg.listen is Some || cfg.ws is Some
            &&& cfg.ws == asked.ws
            &&& asked.listen is Some || asked.ws is Some ==> cfg == asked
        }),
{
}

/// What is no flag changes nothing but the list of what was passed over.
pub proof fn law_unknown_arguments_are_passed_over(
    cfg: ConfigModel,
    arg: Seq<char>,
    rest: Seq<Seq<char>>,
    value: Option<Seq<char>>,
)
    requires
        with_flag(cfg, arg, value) is None,
    ensures
        with_args(cfg, seq![arg] + rest) == with_args(
            ConfigModel { ignored: cfg.ignored.push(arg), ..cfg },
            rest,
        ),
{
    let args = seq![arg] + rest;
    assert(args.skip(1) =~= rest);
}

/// A flag with its argument is dealt with before what stands behind them, which is read as if it
/// stood alone. So a later `--listen` takes the place of an earlier one, and each `--peer` is
/// added to those before it.
pub proof fn law_flags_are_read_from_left_to_right(
    cfg: ConfigModel,
    flag: Seq<char>,
    value: Seq<char>,
    rest: Seq<Seq<char>>,
)
    requires
        with_flag(cfg, flag, Some(value)) is Some,
    ensures
        with_args(cfg, seq![flag, value] + rest) == with_args(
            with_flag(cfg, flag, Some(value))->0,
            rest,
        ),
{
    let args = seq![flag, value] + rest;
    assert(args.skip(2) =~= rest);
}

/// There is one host to an address.
pub proof fn law_the_host_is_unique(s: Seq<char>, a: Seq<char>, b: Seq<char>)
    requires
        before_slash(s, a),
        before_slash(s, b),
    ensures
        a == b,
{
    if a.len() < b.len() {
        assert(b[a.len() as int] == '/');
    } else if b.len() < a.len() {
        assert(a[b.len() as int] == '/');
    }
    assert(a =~= b);
}

proof fn lemma_flags_differ()
    ensures
        "--listen"@ != "--ws"@,
        "--listen"@ != "--db"@,
        "--listen"@ != "--identity-file"@,
        "--listen"@ != "--firestore"@,
        "--listen"@ != "--region"@,
        "--listen"@ != "--advertise"@,
        "--listen"@ != "--mesh-fanout"@,
        "--listen"@ != "--peer"@,
        "--ws"@ != "--db"@,
        "--ws"@ != "--identity-file"@,
        "--ws"@ != "--firestore"@,
        "--ws"@ != "--region"@,
        "--ws"@ != "--advertise"@,
        "--ws"@ != "--mesh-fanout"@,
        "--ws"@ != "--peer"@,
        "--db"@ != "--identity-file"@,
        "--db"@ != "--firestore"@,
        "--db"@ != "--region"@,
        "--db"@ != "--advertise"@,
        "--db"@ != "--mesh-fanout"@,
        "--db"@ != "--peer"@,
        "--identity-file"@ != "--firestore"@,
        "--identity-file"@ != "--region"@,
        "--identity-file"@ != "--advertise"@,
        "--identity-file"@ != "--mesh-fanout"@,
        "--identity-file"@ != "--peer"@,
        "--firestore"@ != "--region"@,
        "--firestore"@ != "--advertise"@,
        "--firestore"@ != "--mesh-fanout"@,
        "--firestore"@ != "--peer"@,
        "--region"@ != "--advertise"@,
        "--region"@ != "--mesh-fanout"@,
        "--region"@ != "--peer"@,
        "--advertise"@ != "--mesh-fanout"@,
        "--advertise"@ != "--peer"@,
        "--mesh-fanout"@ != "--peer"@,
{
    reveal_strlit("--listen");
    reveal_strlit("--ws");
    reveal_strlit("--db");
    reveal_strlit("--identity-file");
    reveal_strlit("--firestore");
    reveal_strlit("--region");
    reveal_strlit("--advertise");
    reveal_strlit("--mesh-fanout");
    reveal_strlit("--peer");
    assert("--listen"@.len() == 8 && "--region"@.len() == 8 && "--ws"@.len() == 4 && "--db"@.len()
        == 4 && "--identity-file"@.len() == 15 && "--firestore"@.len() == 11 && "--advertise"@.len()
        == 11 && "--mesh-fanout"@.len() == 13 && "--peer"@.len() == 6);
    assert("--listen"@[2] != "--region"@[2]);
    assert("--ws"@[2] != "--db"@[2]);
    assert("--firestore"@[2] != "--advertise"@[2]);
}

/// Each flag sets its own setting, and leaves every other as it was; and there are no other flags.
pub proof fn law_a_flag_changes_its_own_setting_alone(
    cfg: ConfigModel,
    flag: Seq<char>,
    value: Option<Seq<char>>,
)
    ensures
        with_flag(cfg, flag, value) is Some <==> flag == "--listen"@ || flag == "--ws"@ || flag
            == "--db"@ || flag == "--identity-file"@ || flag == "--firestore"@ || flag
            == "--region"@ || flag == "--advertise"@ || flag == "--mesh-fanout"@ || flag
            == "--peer"@,
        with_flag(cfg, flag, value) matches Some(next) ==> {
            &&& next.listen == if flag == "--listen"@ {
                value
            } else {
                cfg.listen
            }
            &&& next.ws == if flag == "--ws"@ {
                value
            } else {
                cfg.ws
            }
            &&& next.db == if flag == "--db"@ && value is Some {
                value->0
            } else {
                cfg.db
            }
            &&& next.identity_file == if flag == "--identity-file"@ {
                value
            } else {
                cfg.identity_file
            }
            &&& next.peers == if flag == "--peer"@ && value is Some {
                cfg.peers + seq![value->0]
            } else {
                cfg.peers
            }
            &&& next.firestore == if flag == "--firestore"@ {
                value
            } else {
                cfg.firestore
            }
            &&& next.region == if flag == "--region"@ {
                value
            } else {
                cfg.region
            }
            &&& next.advertise == if flag == "--advertise"@ {
                value
            } else {
                cfg.advertise
            }
            &&& flag != "--mesh-fanout"@ ==> next.mesh_fanout == cfg.mesh_fanout
            &&& next.ignored == cfg.ignored
        },
{
    lemma_flags_differ();
    if let Some(v) = value {
        assert(cfg.peers.push(v) =~= cfg.peers + seq![v]);
    }
}

/// A fan-out is the number that it is given as, with or without a plus sign; what is no number, and
/// one that is too large to count to, means none.
pub proof fn law_the_fan_out_is_the_number_given(
    cfg: ConfigModel,
    n: nat,
    other: Seq<char>,
    at: int,
)
    ensures
        n <= usize::MAX ==> with_flag(cfg, "--mesh-fanout"@, Some(decimal(n)))->0.mesh_fanout == n,
        n <= usize::MAX ==> with_flag(
            cfg,
            "--mesh-fanout"@,
            Some(seq!['+'] + decimal(n)),
        )->0.mesh_fanout == n,
        n > usize::MAX ==> with_flag(cfg, "--mesh-fanout"@, Some(decimal(n)))->0.mesh_fanout == 0,
        with_flag(cfg, "--mesh-fanout"@, None)->0.mesh_fanout == 0,
        0 < at < other.len() && !(48 <= other[at] as u32 <= 57) ==> with_flag(
            cfg,
            "--mesh-fanout"@,
            Some(other),
        )->0.mesh_fanout == 0,
        other.len() == 0 ==> with_flag(cfg, "--mesh-fanout"@, Some(other))->0.mesh_fanout == 0,
{
    lemma_flags_differ();
    law_numbers_are_read_as_they_are_written(n, usize::MAX as nat);
    law_only_digits_are_a_number(other, at, usize::MAX as nat);
}

/// Flags for different settings may stand in either order.
pub proof fn law_flags_commute(
    cfg: ConfigModel,
    flag: Seq<char>,
    value: Option<Seq<char>>,
    other: Seq<char>,
    its: Option<Seq<char>>,
)
    requires
        flag != other,
        with_flag(cfg, flag, value) is Some,
        with_flag(cfg, other, its) is Some,
    ensures
        with_flag(with_flag(cfg, flag, value)->0, other, its) is Some,
        with_flag(with_flag(cfg, flag, value)->0, other, its) == with_flag(
            with_flag(cfg, other, its)->0,
            flag,
            value,
        ),
{
    lemma_flags_differ();
}

/// A command line that names both bearers and nothing else has both, in whichever order it names
/// them, and everything else unset: `--ws a --listen b` and `--listen b --ws a` listen on both.
pub proof fn law_both_bearers_are_kept(
    a: String,
    b: String,
    args: Vec<String>,
    cfg: Config,
)
    requires
        call_ensures(parse_args, (args,), cfg),
        texts(args@) == seq!["--ws"@, a@, "--listen"@, b@] || texts(args@) == seq![
            "--listen"@,
            b@,
            "--ws"@,
            a@,
        ],
    ensures
        cfg.ws matches Some(ws) && ws@ == a@,
        cfg.listen matches Some(listen) && listen@ == b@,
        cfg.db@ == "hop-relay.db"@,
        cfg.identity_file is None,
        cfg.peers@.len() == 0,
        cfg.firestore is None,
        cfg.region is None,
        cfg.advertise is None,
        cfg.mesh_fanout == 0,
        cfg.ignored@.len() == 0,
{
    lemma_flags_differ();
    let none = Seq::<Seq<char>>::empty();
    let (ws, listen) = (seq!["--ws"@, a@], seq!["--listen"@, b@]);
    assert(seq!["--ws"@, a@, "--listen"@, b@] =~= ws + (listen + none));
    assert(seq!["--listen"@, b@, "--ws"@, a@] =~= listen + (ws + none));
    law_a_flag_changes_its_own_setting_alone(unset(), "--ws"@, Some(a@));
    law_a_flag_changes_its_own_setting_alone(unset(), "--listen"@, Some(b@));
    let with_ws = with_flag(unset(), "--ws"@, Some(a@))->0;
    let with_listen = with_flag(unset(), "--listen"@, Some(b@))->0;
    law_a_flag_changes_its_own_setting_alone(with_ws, "--listen"@, Some(b@));
    law_a_flag_changes_its_own_setting_alone(with_listen, "--ws"@, Some(a@));
    law_flags_are_read_from_left_to_right(unset(), "--ws"@, a@, listen + none);
    law_flags_are_read_from_left_to_right(with_ws, "--listen"@, b@, none);
    law_flags_are_read_from_left_to_right(unset(), "--listen"@, b@, ws + none);
    law_flags_are_read_from_left_to_right(with_listen, "--ws"@, a@, none);
    assert(texts(cfg.peers@).len() == 0 && texts(cfg.ignored@).len() == 0);
}

/// An empty command line listens on the default TCP port and keeps its store in the default file,
/// and sets nothing else.
pub proof fn law_what_holds_without_arguments(args: Vec<String>, cfg: Config)
    requires
        call_ensures(parse_args, (args,), cfg),
        args@.len() == 0,
    ensures
        cfg.listen matches Some(listen) && listen@ == "0.0.0.0:9443"@,
        cfg.ws is None,
        cfg.db@ == "hop-relay.db"@,
        cfg.identity_file is None,
        cfg.peers@.len() == 0,
        cfg.firestore is None,
        cfg.region is None,
        cfg.advertise is None,
        cfg.mesh_fanout == 0,
        cfg.ignored@.len() == 0,
{
    assert(texts(args@).len() == 0);
    assert(texts(cfg.peers@).len() == 0 && texts(cfg.ignored@).len() == 0);
}

/// The last argument, where it is a flag, is one without a value: a bearer is then unset, and a
/// store file or a list of peers stays as it was.
pub proof fn law_a_last_flag_has_no_value(cfg: ConfigModel, flag: Seq<char>)
    ensures
        with_args(cfg, Seq::empty()) == cfg,
        with_flag(cfg, flag, None) is Some ==> with_args(cfg, seq![flag]) == with_flag(
            cfg,
            flag,
            None,
        )->0,
        with_flag(cfg, flag, None) is None ==> with_args(cfg, seq![flag]).ignored
            == cfg.ignored + seq![flag],
        with_args(cfg, seq!["--ws"@]).ws is None,
        with_args(cfg, seq!["--peer"@]).peers == cfg.peers,
        with_args(cfg, seq!["--db"@]).db == cfg.db,
{
    lemma_flags_differ();
    reveal_with_fuel(with_args, 2);
    assert(seq![flag].skip(1) =~= Seq::<Seq<char>>::empty());
    assert(cfg.ignored.push(flag) =~= cfg.ignored + seq![flag]);
}

/// The default bearer takes the place of nothing: it is added exactly where no bearer was asked
/// for, and no other setting changes.
pub proof fn law_the_default_bearer_is_added_alone(cfg: ConfigModel)
    ensures
        ({
            let res = with_default_bearer(cfg);
            &&& cfg.listen is None && cfg.ws is None ==> res.listen == Some("0.0.0.0:9443"@)
            &&& cfg.listen is Some || cfg.ws is Some ==> res.listen == cfg.listen
            &&& res.ws == cfg.ws
            &&& res.db == cfg.db
            &&& res.identity_file == cfg.identity_file
            &&& res.peers == cfg.peers
            &&& res.firestore == cfg.firestore
            &&& res.region == cfg.region
            &&& res.advertise == cfg.advertise
            &&& res.mesh_fanout == cfg.mesh_fanout
            &&& res.ignored == cfg.ignored
        }),
{
}

/// The host of an address is what stands between its scheme, where it has one, and the first slash
/// behind it; and a relay's node that is reached there is called by it.
pub proof fn law_the_host_stands_between_scheme_and_slash(
    url: &str,
    scheme: Seq<char>,
    host: Seq<char>,
    path: Seq<char>,
    res: String,
    node: NodeSettings,
)
    requires
        call_ensures(host_of, (url,), res),
        call_ensures(configure_node, (Some(url),), node),
        url@ == scheme + host + path,
        scheme == "wss://"@ || scheme == "ws://"@ || (scheme.len() == 0 && !"wss://"@.is_prefix_of(
            url@,
        ) && !"ws://"@.is_prefix_of(url@)),
        forall|i: int| 0 <= i < host.len() ==> #[trigger] host[i] != '/',
        path.len() == 0 || path[0] == '/',
    ensures
        res@ == host,
        node.name matches Some(name) && name@ == host,
        node.route_capacity == 200_000,
        node.max_relayed == 8_192,
{
    reveal_strlit("wss://");
    reveal_strlit("ws://");
    assert("wss://"@.len() == 6 && "ws://"@.len() == 5);
    let rest = host + path;
    assert(url@ =~= scheme + rest);
    assert(url@.take(scheme.len() as int) =~= scheme);
    assert(url@.skip(scheme.len() as int) =~= rest);
    if scheme == "ws://"@ {
        assert("wss://"@[2] == 's' && url@[2] == ':');
        assert(!"wss://"@.is_prefix_of(url@)) by {
            if "wss://"@.is_prefix_of(url@) {
                assert(url@.subrange(0, 6)[2] == url@[2]);
            }
        }
    }
    assert(scheme.len() > 0 ==> scheme.is_prefix_of(url@)) by {
        assert(url@.subrange(0, scheme.len() as int) =~= scheme);
    }
    assert(without_scheme(url@) =~= rest);
    assert(rest.subrange(0, host.len() as int) =~= host);
    assert(!host.contains('/'));
    assert(before_slash(rest, host));
    law_the_host_is_unique(rest, host, res@);
    law_the_host_is_unique(rest, host, node.name->0@);
}

/// A node that is reached nowhere has no name.
pub proof fn law_an_unreached_node_has_no_name(node: NodeSettings)
    requires
        call_ensures(configure_node, (None,), node),
    ensures
        node.name is None,
        node.route_capacity == 200_000,
        node.max_relayed == 8_192,
{
}

/// Each setting of the model is the configuration's own.
pub proof fn law_a_configuration_is_read_as_it_is(cfg: Config, i: int)
    ensures
        cfg@.listen is Some <==> cfg.listen is Some,
        cfg.listen is Some ==> cfg@.listen->0 == cfg.listen->0@,
        cfg@.ws is Some <==> cfg.ws is Some,
        cfg.ws is Some ==> cfg@.ws->0 == cfg.ws->0@,
        cfg@.db == cfg.db@,
        cfg@.identity_file is Some <==> cfg.identity_file is Some,
        cfg.identity_file is Some ==> cfg@.identity_file->0 == cfg.identity_file->0@,
        cfg@.peers.len() == cfg.peers@.len(),
        0 <= i < cfg.peers@.len() ==> cfg@.peers[i] == cfg.peers@[i]@,
        cfg@.firestore is Some <==> cfg.firestore is Some,
        cfg.firestore is Some ==> cfg@.firestore->0 == cfg.firestore->0@,
        cfg@.region is Some <==> cfg.region is Some,
        cfg.region is Some ==> cfg@.region->0 == cfg.region->0@,
        cfg@.advertise is Some <==> cfg.advertise is Some,
        cfg.advertise is Some ==> cfg@.advertise->0 == cfg.advertise->0@,
        cfg@.mesh_fanout == cfg.mesh_fanout,
        cfg@.ignored.len() == cfg.ignored@.len(),
        0 <= i < cfg.ignored@.len() ==> cfg@.ignored[i] == cfg.ignored@[i]@,
{
}

/// The arguments that name these flags, each with its value.
pub open spec fn arguments(pairs: Seq<(Seq<char>, Seq<char>)>) -> Seq<Seq<char>> {
    Seq::new(
        2 * pairs.len(),
        |i: int|
            if i % 2 == 0 {
                pairs[i / 2].0
            } else {
                pairs[i / 2].1
            },
    )
}

/// Is `flag` named at place `k`, and nowhere behind it?
pub open spec fn named_last(pairs: Seq<(Seq<char>, Seq<char>)>, flag: Seq<char>, k: int) -> bool {
    &&& 0 <= k < pairs.len()
    &&& pairs[k].0 == flag
    &&& forall|j: int| k < j < pairs.len() ==> (#[trigger] pairs[j]).0 != flag
}

/// Is `flag` not named at all?
pub open spec fn never_named(pairs: Seq<(Seq<char>, Seq<char>)>, flag: Seq<char>) -> bool {
    forall|j: int| 0 <= j < pairs.len() ==> (#[trigger] pairs[j]).0 != flag
}

/// Is `now` the setting that `pairs` leave where it was `before`: the value that `flag` has at `k`,
/// where it is named last there, and as it was, where it is not named?
pub open spec fn settled<T>(
    pairs: Seq<(Seq<char>, Seq<char>)>,
    flag: Seq<char>,
    k: int,
    before: T,
    given: T,
    now: T,
) -> bool {
    &&& named_last(pairs, flag, k) ==> now == given
    &&& never_named(pairs, flag) ==> now == before
}

proof fn lemma_settled_behind_the_first<T>(
    pairs: Seq<(Seq<char>, Seq<char>)>,
    flag: Seq<char>,
    k: int,
    before: T,
    between: T,
    given: T,
    now: T,
)
    requires
        pairs.len() > 0,
        pairs[0].0 != flag ==> between == before,
        k == 0 && pairs[0].0 == flag ==> between == given,
        named_last(pairs.skip(1), flag, k - 1) ==> now == given,
        never_named(pairs.skip(1), flag) ==> now == between,
    ensures
        settled(pairs, flag, k, before, given, now),
{
    let rest = pairs.skip(1);
    if named_last(pairs, flag, k) {
        if k == 0 {
            assert forall|j: int| 0 <= j < rest.len() implies (#[trigger] rest[j]).0 != flag by {
                assert(pairs[j + 1].0 != flag);
            }
        } else {
            assert(rest[k - 1] == pairs[k]);
            assert forall|j: int| k - 1 < j < rest.len() implies (#[trigger] rest[j]).0 != flag by {
                assert(pairs[j + 1].0 != flag);
            }
        }
    }
    if never_named(pairs, flag) {
        assert(pairs[0].0 != flag);
        assert forall|j: int| 0 <= j < rest.len() implies (#[trigger] rest[j]).0 != flag by {
            assert(pairs[j + 1].0 != flag);
        }
    }
}

/// However many flags a command line names, with their values and in whatever order: each setting
/// is the value that its flag was given last, and where it was not named it is as it was; the peers
/// are all that were named, in order, behind those before; and nothing is passed over.
pub proof fn law_every_setting_is_the_last_given(
    cfg: ConfigModel,
    pairs: Seq<(Seq<char>, Seq<char>)>,
    k: int,
)
    requires
        forall|j: int|
            0 <= j < pairs.len() ==> with_flag(
                cfg,
                (#[trigger] pairs[j]).0,
                Some(pairs[j].1),
            ) is Some,
    ensures
        ({
            let res = with_args(cfg, arguments(pairs));
            let given = Some(pairs[k].1);
            &&& settled(pairs, "--listen"@, k, cfg.listen, given, res.listen)
            &&& settled(pairs, "--ws"@, k, cfg.ws, given, res.ws)
            &&& settled(pairs, "--db"@, k, cfg.db, pairs[k].1, res.db)
            &&& settled(pairs, "--identity-file"@, k, cfg.identity_file, given, res.identity_file)
            &&& settled(pairs, "--firestore"@, k, cfg.firestore, given, res.firestore)
            &&& settled(pairs, "--region"@, k, cfg.region, given, res.region)
            &&& settled(pairs, "--advertise"@, k, cfg.advertise, given, res.advertise)
            &&& res.peers == cfg.peers + pairs.filter(
                |p: (Seq<char>, Seq<char>)| p.0 == "--peer"@,
            ).map_values(|p: (Seq<char>, Seq<char>)| p.1)
            &&& res.ignored == cfg.ignored
        }),
    decreases pairs.len(),
{
    let is_peer = |p: (Seq<char>, Seq<char>)| p.0 == "--peer"@;
    let value = |p: (Seq<char>, Seq<char>)| p.1;
    if pairs.len() == 0 {
        assert(arguments(pairs) =~= Seq::<Seq<char>>::empty());
        reveal(Seq::filter);
        assert(cfg.peers + pairs.filter(is_peer).map_values(value) =~= cfg.peers);
    } else {
        let (flag, text) = pairs[0];
        let rest = pairs.skip(1);
        let next = with_flag(cfg, flag, Some(text))->0;
        assert forall|j: int| 0 <= j < rest.len() implies with_flag(
            next,
            (#[trigger] rest[j]).0,
            Some(rest[j].1),
        ) is Some by {
            assert(with_flag(cfg, pairs[j + 1].0, Some(pairs[j + 1].1)) is Some);
        }
        assert(with_flag(cfg, flag, Some(text)) is Some);
        assert(arguments(pairs) =~= seq![flag, text] + arguments(rest)) by {
            assert forall|i: int| 2 <= i < 2 * pairs.len() implies arguments(pairs)[i] == arguments(
                rest,
            )[i - 2] by {
                assert(rest[(i - 2) / 2] == pairs[i / 2]);
            }
        }
        law_flags_are_read_from_left_to_right(cfg, flag, text, arguments(rest));
        law_a_flag_changes_its_own_setting_alone(cfg, flag, Some(text));
        law_every_setting_is_the_last_given(next, rest, k - 1);
        let res = with_args(cfg, arguments(pairs));
        let given = Some(pairs[k].1);
        if 0 < k < pairs.len() {
            assert(rest[k - 1] == pairs[k]);
        }
        lemma_settled_behind_the_first(
            pairs,
            "--listen"@,
            k,
            cfg.listen,
            next.listen,
            given,
            res.listen,
        );
        lemma_settled_behind_the_first(pairs, "--ws"@, k, cfg.ws, next.ws, given, res.ws);
        lemma_settled_behind_the_first(pairs, "--db"@, k, cfg.db, next.db, pairs[k].1, res.db);
        lemma_settled_behind_the_first(
            pairs,
            "--identity-file"@,
            k,
            cfg.identity_file,
            next.identity_file,
            given,
            res.identity_file,
        );
        lemma_settled_behind_the_first(
            pairs,
            "--firestore"@,
            k,
            cfg.firestore,
            next.firestore,
            given,
            res.firestore,
        );
        lemma_settled_behind_the_first(
            pairs,
            "--region"@,
            k,
            cfg.region,
            next.region,
            given,
            res.region,
        );
        lemma_settled_behind_the_first(
            pairs,
            "--advertise"@,
            k,
            cfg.advertise,
            next.advertise,
            given,
            res.advertise,
        );
        let first = seq![pairs[0]];
        assert(pairs =~= first + rest);
        Seq::filter_distributes_over_add(first, rest, is_peer);
        assert(first.filter(is_peer) =~= if flag == "--peer"@ {
            first
        } else {
            Seq::empty()
        }) by {
            reveal_with_fuel(Seq::filter, 2);
            assert(first.drop_last() =~= Seq::<(Seq<char>, Seq<char>)>::empty());
        }
        assert(cfg.peers + pairs.filter(is_peer).map_values(value) =~= next.peers + rest.filter(
            is_peer,
        ).map_values(value));
    }
}

/// The command line as it is read: the last that each bearer's flag was given, whatever other flags
/// stand before, between and behind them; so `--ws` and `--listen` never get in each other's way.
pub proof fn law_bearers_do_not_get_in_each_others_way(
    args: Vec<String>,
    cfg: Config,
    pairs: Seq<(Seq<char>, Seq<char>)>,
    w: int,
    l: int,
)
    requires
        call_ensures(parse_args, (args,), cfg),
        texts(args@) == arguments(pairs),
        forall|j: int|
            0 <= j < pairs.len() ==> with_flag(
                unset(),
                (#[trigger] pairs[j]).0,
                Some(pairs[j].1),
            ) is Some,
        named_last(pairs, "--ws"@, w),
        named_last(pairs, "--listen"@, l),
    ensures
        cfg.ws matches Some(ws) && ws@ == pairs[w].1,
        cfg.listen matches Some(listen) && listen@ == pairs[l].1,
{
    law_every_setting_is_the_last_given(unset(), pairs, w);
    law_every_setting_is_the_last_given(unset(), pairs, l);
}

} // verus!
