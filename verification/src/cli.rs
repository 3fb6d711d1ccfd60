use vstd::prelude::*;

verus! {

/// The scenes that can be chosen on the command line.
#[derive(Clone, Copy, Debug, PartialEq, Eq, Structural)]
pub enum SceneSelection {
    Benchmark,
    Collision,
    Game,
    Lighting,
    PongClient,
    PongServer,
}

/// The scene a command line name stands for.
pub open spec fn spec_scene_from(s: Seq<char>) -> Option<SceneSelection> {
    if s == "benchmark"@ {
        Some(SceneSelection::Benchmark)
    } else if s == "collision"@ {
        Some(SceneSelection::Collision)
    } else if s == "game"@ {
        Some(SceneSelection::Game)
    } else if s == "lighting"@ {
        Some(SceneSelection::Lighting)
    } else if s == "pong"@ {
        Some(SceneSelection::PongClient)
    } else if s == "pong-server"@ {
        Some(SceneSelection::PongServer)
    } else {
        None
    }
}

/// Whether the text of `a` is `b`.
fn text_is(a: &str, b: &str) -> (r: bool)
    ensures
        r == (a@ == b@),
{
    let x = a.to_owned();
    let y = b.to_owned();
    x == y
}

impl SceneSelection {
    /// The scene a command line name stands for, `None` for an unknown name.
    pub fn from_str(s: &str) -> (r: Option<SceneSelection>)
        ensures
            r == spec_scene_from(s@),
    {
        if text_is(s, "benchmark") {
            Some(SceneSelection::Benchmark)
        } else if text_is(s, "collision") {
            Some(SceneSelection::Collision)
        } else if text_is(s, "game") {
            Some(SceneSelection::Game)
        } else if text_is(s, "lighting") {
            Some(SceneSelection::Lighting)
        } else if text_is(s, "pong") {
            Some(SceneSelection::PongClient)
        } else if text_is(s, "pong-server") {
            Some(SceneSelection::PongServer)
        } else {
            None
        }
    }
}

/// The options the program runs with.
pub struct CliArgs {
    pub scene: Option<SceneSelection>,
    pub headless: bool,
    pub server_address: String,
}

/// Why a command line was refused.
#[derive(Debug, PartialEq, Eq)]
pub enum ArgsError {
    /// `--scene` was followed by a name that is no scene.
    InvalidScene { given: String },
    /// `--scene` was the last argument.
    ExpectedSceneValue,
    /// `--server-address` was the last argument.
    ExpectedServerAddress,
}

/// The options as plain values: scene, headless, server address.
pub type CliModel = (Option<SceneSelection>, bool, Seq<char>);

/// What goes wrong, with the text of an invalid scene name.
pub enum ArgsFault {
    InvalidScene(Seq<char>),
    ExpectedSceneValue,
    ExpectedServerAddress,
}

pub open spec fn default_model() -> CliModel {
    (Some(SceneSelection::Game), false, "127.0.0.1:7777"@)
}

/// Reading the arguments from position `i` on, with the options found so far in `acc`.
/// Every argument is looked at in turn; a flag that takes a value consumes the next
/// argument; anything unknown is passed over.
pub open spec fn spec_parse_from(args: Seq<Seq<char>>, i: int, acc: CliModel) -> Result<CliModel, ArgsFault>
    decreases args.len() - i,
{
    if i < 0 || i >= args.len() {
        Ok(acc)
    } else if args[i] == "--scene"@ {
        if i + 1 < args.len() {
            match spec_scene_from(args[i + 1]) {
                Some(scene) => spec_parse_from(args, i + 2, (Some(scene), acc.1, acc.2)),
                None => Err(ArgsFault::InvalidScene(args[i + 1])),
            }
        } else {
            Err(ArgsFault::ExpectedSceneValue)
        }
    } else if args[i] == "--headless"@ {
        spec_parse_from(args, i + 1, (acc.0, true, acc.2))
    } else if args[i] == "--server-address"@ {
        if i + 1 < args.len() {
            spec_parse_from(args, i + 2, (acc.0, acc.1, args[i + 1]))
        } else {
            Err(ArgsFault::ExpectedServerAddress)
        }
    } else {
        spec_parse_from(args, i + 1, acc)
    }
}

/// The texts of the arguments.
pub open spec fn arg_texts(args: Seq<String>) -> Seq<Seq<char>> {
    args.map_values(|a: String| a@)
}

impl CliArgs {
    /// The game scene, windowed, talking to a server on this machine.
    pub fn default() -> (r: Self)
        ensures
            (r.scene, r.headless, r.server_address@) == default_model(),
    {
        CliArgs {
            scene: Some(SceneSelection::Game),
            headless: false,
            server_address: "127.0.0.1:7777".to_owned(),
        }
    }

    /// The options as plain values.
    pub open spec fn model(&self) -> CliModel {
        (self.scene, self.headless, self.server_address@)
    }
}

/// Reads the program's arguments (the program's name first, as the environment gives
/// them) into options, starting from the defaults.
pub fn parse_args(args: &Vec<String>) -> (r: Result<CliArgs, ArgsError>)
    ensures
        match (r, spec_parse_from(arg_texts(args@), 0, default_model())) {
            (Ok(a), Ok(m)) => a.model() == m,
            (Err(ArgsError::InvalidScene { given }), Err(ArgsFault::InvalidScene(t))) => given@ == t,
            (Err(ArgsError::ExpectedSceneValue), Err(ArgsFault::ExpectedSceneValue)) => true,
            (Err(ArgsError::ExpectedServerAddress), Err(ArgsFault::ExpectedServerAddress)) => true,
            _ => false,
        },
{
    let ghost texts = arg_texts(args@);
    let mut result = CliArgs::default();
    let mut i: usize = 0;
    while i < args.len()
        invariant
            i <= args.len(),
            texts == arg_texts(args@),
            spec_parse_from(texts, i as int, result.model()) == spec_parse_from(texts, 0, default_model()),
        decreases args.len() - i,
    {
        let ghost acc = result.model();
        proof {
            assert(texts[i as int] == args@[i as int]@);
        }
        if text_is(args[i].as_str(), "--scene") {
            if i + 1 < args.len() {
                proof {
                    assert(texts[i + 1] == args@[i + 1]@);
                }
                match SceneSelection::from_str(args[i + 1].as_str()) {
                    Some(parsed_scene) => {
                        result.scene = Some(parsed_scene);
                    },
                    None => {
                        return Err(ArgsError::InvalidScene { given: args[i + 1].clone() });
                    },
                }
                i = i + 1;
            } else {
                return Err(ArgsError::ExpectedSceneValue);
            }
        } else if text_is(args[i].as_str(), "--headless") {
            result.headless = true;
        } else if text_is(args[i].as_str(), "--server-address") {
            if i + 1 < args.len() {
                proof {
                    assert(texts[i + 1] == args@[i + 1]@);
                }
                result.server_address = args[i + 1].clone();
                i = i + 1;
            } else {
                return Err(ArgsError::ExpectedServerAddress);
            }
        }
        i = i + 1;
    }
    Ok(result)
}

/// Reading joined argument lists: where the arguments `a` read from position `i` without
/// fault, reading `a` followed by `b` reads `a` the same way and then goes on with `b`.
pub proof fn lemma_parse_joined(a: Seq<Seq<char>>, b: Seq<Seq<char>>, i: int, acc: CliModel)
    requires
        0 <= i <= a.len(),
        spec_parse_from(a, i, acc) is Ok,
    ensures
        spec_parse_from(a + b, i, acc) == spec_parse_from(a + b, a.len() as int, spec_parse_from(a, i, acc)->Ok_0),
    decreases a.len() - i,
{
    let ab = a + b;
    if i < a.len() {
        assert(ab[i] == a[i]);
        if a[i] == "--scene"@ {
            assert(ab[i + 1] == a[i + 1]);
            let next = (spec_scene_from(a[i + 1]), acc.1, acc.2);
            lemma_parse_joined(a, b, i + 2, next);
        } else if a[i] == "--headless"@ {
            lemma_parse_joined(a, b, i + 1, (acc.0, true, acc.2));
        } else if a[i] == "--server-address"@ {
            assert(ab[i + 1] == a[i + 1]);
            lemma_parse_joined(a, b, i + 2, (acc.0, acc.1, a[i + 1]));
        } else {
            lemma_parse_joined(a, b, i + 1, acc);
        }
    }
}

/// Once `--headless` has been read, the options stay headless: no later argument turns it
/// off.
pub proof fn lemma_headless_stays(args: Seq<Seq<char>>, i: int, acc: CliModel)
    requires
        acc.1,
        spec_parse_from(args, i, acc) is Ok,
    ensures
        spec_parse_from(args, i, acc)->Ok_0.1,
    decreases args.len() - i,
{
    if 0 <= i < args.len() {
        if args[i] == "--scene"@ {
            lemma_headless_stays(args, i + 2, (spec_scene_from(args[i + 1]), acc.1, acc.2));
        } else if args[i] == "--headless"@ {
            lemma_headless_stays(args, i + 1, (acc.0, true, acc.2));
        } else if args[i] == "--server-address"@ {
            lemma_headless_stays(args, i + 2, (acc.0, acc.1, args[i + 1]));
        } else {
            lemma_headless_stays(args, i + 1, acc);
        }
    }
}

/// `--headless` in flag position makes the options headless wherever it stands: after
/// arguments `a` that read without fault, `--headless` followed by any arguments `b` gives
/// headless options where they read without fault; and as the last argument it changes
/// nothing else.
pub proof fn lemma_headless_flag(a: Seq<Seq<char>>, b: Seq<Seq<char>>)
    requires
        spec_parse_from(a, 0, default_model()) is Ok,
    ensures
        spec_parse_from(a + seq!["--headless"@] + b, 0, default_model()) is Ok ==> spec_parse_from(
            a + seq!["--headless"@] + b,
            0,
            default_model(),
        )->Ok_0.1,
        ({
            let m = spec_parse_from(a, 0, default_model())->Ok_0;
            spec_parse_from(a.push("--headless"@), 0, default_model()) == Ok::<CliModel, ArgsFault>(
                (m.0, true, m.2),
            )
        }),
{
    reveal_strlit("--headless");
    reveal_strlit("--scene");
    reveal_strlit("--server-address");
    assert("--headless"@ != "--scene"@ && "--headless"@ != "--server-address"@) by {
        assert("--headless"@.len() != "--scene"@.len());
        assert("--headless"@.len() != "--server-address"@.len());
    }
    let m = spec_parse_from(a, 0, default_model())->Ok_0;
    let hb = seq!["--headless"@] + b;
    let all = a + seq!["--headless"@] + b;
    assert(all =~= a + hb);
    lemma_parse_joined(a, hb, 0, default_model());
    assert(all[a.len() as int] == "--headless"@);
    if spec_parse_from(all, 0, default_model()) is Ok {
        lemma_headless_stays(all, a.len() + 1int, (m.0, true, m.2));
    }
    let last = a.push("--headless"@);
    assert(last =~= a + seq!["--headless"@]);
    lemma_parse_joined(a, seq!["--headless"@], 0, default_model());
    assert(last[a.len() as int] == "--headless"@);
    assert(spec_parse_from(last, a.len() + 1int, (m.0, true, m.2)) == Ok::<CliModel, ArgsFault>((m.0, true, m.2)));
}

/// What each kind of argument does after arguments `a` that read without fault to the
/// options `m`: `--scene` with a known name sets the scene, with an unknown one fails
/// naming it, and with nothing after it fails; `--server-address` sets the address to the
/// argument after it, and fails with nothing after it; any other argument changes nothing.
pub proof fn lemma_each_flag(a: Seq<Seq<char>>, x: Seq<char>)
    requires
        spec_parse_from(a, 0, default_model()) is Ok,
    ensures
        ({
            let m = spec_parse_from(a, 0, default_model())->Ok_0;
            &&& spec_scene_from(x) is Some ==> spec_parse_from(a + seq!["--scene"@, x], 0, default_model())
                == Ok::<CliModel, ArgsFault>((spec_scene_from(x), m.1, m.2))
            &&& spec_scene_from(x) is None ==> spec_parse_from(a + seq!["--scene"@, x], 0, default_model())
                == Err::<CliModel, ArgsFault>(ArgsFault::InvalidScene(x))
            &&& spec_parse_from(a.push("--scene"@), 0, default_model()) == Err::<CliModel, ArgsFault>(
                ArgsFault::ExpectedSceneValue,
            )
            &&& spec_parse_from(a + seq!["--server-address"@, x], 0, default_model()) == Ok::<CliModel, ArgsFault>(
                (m.0, m.1, x),
            )
            &&& spec_parse_from(a.push("--server-address"@), 0, default_model()) == Err::<CliModel, ArgsFault>(
                ArgsFault::ExpectedServerAddress,
            )
            &&& (x != "--scene"@ && x != "--headless"@ && x != "--server-address"@) ==> spec_parse_from(
                a.push(x),
                0,
                default_model(),
            ) == Ok::<CliModel, ArgsFault>(m)
        }),
{
    reveal_strlit("--headless");
    reveal_strlit("--scene");
    reveal_strlit("--server-address");
    assert("--scene"@ != "--headless"@ && "--scene"@ != "--server-address"@) by {
        assert("--scene"@.len() != "--headless"@.len());
        assert("--scene"@.len() != "--server-address"@.len());
    }
    assert("--server-address"@ != "--headless"@) by {
        assert("--server-address"@.len() != "--headless"@.len());
    }
    let m = spec_parse_from(a, 0, default_model())->Ok_0;
    let n = a.len() as int;
    let s1 = seq!["--scene"@, x];
    lemma_parse_joined(a, s1, 0, default_model());
    assert((a + s1)[n] == "--scene"@ && (a + s1)[n + 1] == x);
    let s2 = seq!["--scene"@];
    lemma_parse_joined(a, s2, 0, default_model());
    assert(a.push("--scene"@) =~= a + s2);
    assert((a + s2)[n] == "--scene"@);
    let s3 = seq!["--server-address"@, x];
    lemma_parse_joined(a, s3, 0, default_model());
    assert((a + s3)[n] == "--server-address"@ && (a + s3)[n + 1] == x);
    assert(spec_parse_from(a + s3, n + 2, (m.0, m.1, x)) == Ok::<CliModel, ArgsFault>((m.0, m.1, x)));
    let s4 = seq!["--server-address"@];
    lemma_parse_joined(a, s4, 0, default_model());
    assert(a.push("--server-address"@) =~= a + s4);
    assert((a + s4)[n] == "--server-address"@);
    let s5 = seq![x];
    lemma_parse_joined(a, s5, 0, default_model());
    assert(a.push(x) =~= a + s5);
    assert((a + s5)[n] == x);
    assert(spec_parse_from(a + s5, n + 1, m) == Ok::<CliModel, ArgsFault>(m));
    if spec_scene_from(x) is Some {
        assert(spec_parse_from(a + s1, n + 2, (spec_scene_from(x), m.1, m.2)) == Ok::<CliModel, ArgsFault>(
            (spec_scene_from(x), m.1, m.2),
        ));
    }
}

} // verus!
