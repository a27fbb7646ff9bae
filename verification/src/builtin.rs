//! The bundled profiles: how each is told from the output of a device.
//!
//! Highlighting rules are not part of this table; a profile brings the rules
//! that are registered with it.

use vstd::prelude::*;
use vstd::string::*;

use crate::config::RuleSpec;
use crate::profiles::{profile_views, with_profile, Profile, ProfileStore, ProfileView};
use crate::prompts::PromptMatcherKind;
use crate::signals::{ProfileRuntimeMeta, PromptConfidence, RuntimeView, SignalView, StrongSignal};
use crate::text::{copy_text, text_views};

verus! {

fn texts(values: Vec<&'static str>) -> (r: Vec<String>)
    ensures
        text_views(r@) == values@.map_values(|v: &'static str| v@),
{
    let ghost all = values@.map_values(|v: &'static str| v@);
    let mut out: Vec<String> = Vec::new();
    let mut i: usize = 0;
    while i < values.len()
        invariant
            i <= values@.len(),
            all == values@.map_values(|v: &'static str| v@),
            out@.len() == i,
            forall|k: int| 0 <= k < i ==> (#[trigger] out@[k])@ == all[k],
        decreases values@.len() - i,
    {
        out.push(copy_text(values[i]));
        i = i + 1;
    }
    assert(text_views(out@) =~= all);
    out
}

fn contains(value: &'static str) -> (r: StrongSignal)
    ensures
        r@ == SignalView::Contains(value@),
{
    StrongSignal::Contains { value: copy_text(value) }
}

fn contains_any(values: Vec<&'static str>) -> (r: StrongSignal)
    ensures
        r@ == SignalView::ContainsAny(values@.map_values(|v: &'static str| v@)),
{
    StrongSignal::ContainsAny { values: texts(values) }
}

fn line_prefix_and_any(prefix: &'static str, values: Vec<&'static str>) -> (r: StrongSignal)
    ensures
        r@ == SignalView::LinePrefixAndAny(prefix@, values@.map_values(|v: &'static str| v@)),
{
    StrongSignal::LinePrefixAndAny { prefix: copy_text(prefix), values: texts(values) }
}

pub open spec fn generic_profile() -> ProfileView {
    ProfileView {
        name: "generic"@,
        inherits: seq![],
        detection: seq![],
        runtime: RuntimeView {
            priority: 0,
            local_baseline: true,
            strong_signals: seq![],
            negative_signals: seq![],
            startup_prompt: PromptMatcherKind::NoPrompt,
            runtime_prompt: PromptMatcherKind::NoPrompt,
            prompt_confidence: PromptConfidence::Repeated,
        },
        rules: Seq::empty(),
    }
}

fn generic() -> (r: Profile)
    ensures
        r@ == generic_profile(),
{
    let rules: Vec<RuleSpec> = Vec::new();
    let r = Profile {
        name: copy_text("generic"),
        inherits: texts(Vec::new()),
        detection: texts(Vec::new()),
        runtime: ProfileRuntimeMeta {
            priority: 0,
            local_baseline: true,
            strong_signals: Vec::new(),
            negative_signals: Vec::new(),
            startup_prompt: PromptMatcherKind::NoPrompt,
            runtime_prompt: PromptMatcherKind::NoPrompt,
            prompt_confidence: PromptConfidence::Repeated,
        },
        rules,
    };
    proof {
        let want = generic_profile();
        assert(r@.inherits =~= want.inherits);
        assert(r@.detection =~= want.detection);
        assert(r@.runtime.strong_signals =~~= want.runtime.strong_signals);
        assert(r@.runtime.negative_signals =~~= want.runtime.negative_signals);
        assert(r@.rules =~= want.rules);
    }
    r
}

pub open spec fn juniper_profile() -> ProfileView {
    ProfileView {
        name: "juniper"@,
        inherits: seq!["generic"@],
        detection: seq!["junos"@, "commit check"@, "display set"@],
        runtime: RuntimeView {
            priority: 10,
            local_baseline: false,
            strong_signals: seq![SignalView::Contains("JUNOS"@)],
            negative_signals: seq![SignalView::ContainsAny(seq!["PAN-OS"@, "Versa"@])],
            startup_prompt: PromptMatcherKind::JunosUserAtHost,
            runtime_prompt: PromptMatcherKind::JunosUserAtHost,
            prompt_confidence: PromptConfidence::Repeated,
        },
        rules: Seq::empty(),
    }
}

fn juniper() -> (r: Profile)
    ensures
        r@ == juniper_profile(),
{
    let signal_0 = contains("JUNOS");
    let signal_1 = contains_any(vec!["PAN-OS", "Versa"]);
    assert(signal_1@->ContainsAny_0 =~= seq!["PAN-OS"@, "Versa"@]);
    let rules: Vec<RuleSpec> = Vec::new();
    let r = Profile {
        name: copy_text("juniper"),
        inherits: texts(vec!["generic"]),
        detection: texts(vec!["junos", "commit check", "display set"]),
        runtime: ProfileRuntimeMeta {
            priority: 10,
            local_baseline: false,
            strong_signals: vec![signal_0],
            negative_signals: vec![signal_1],
            startup_prompt: PromptMatcherKind::JunosUserAtHost,
            runtime_prompt: PromptMatcherKind::JunosUserAtHost,
            prompt_confidence: PromptConfidence::Repeated,
        },
        rules,
    };
    proof {
        let want = juniper_profile();
        assert(r@.inherits =~= want.inherits);
        assert(r@.detection =~= want.detection);
        assert(r@.runtime.strong_signals =~~= want.runtime.strong_signals);
        assert(r@.runtime.negative_signals =~~= want.runtime.negative_signals);
        assert(r@.rules =~= want.rules);
    }
    r
}

pub open spec fn fortinet_profile() -> ProfileView {
    ProfileView {
        name: "fortinet"@,
        inherits: seq!["generic"@],
        detection: seq!["fortigate"@, "fortios"@],
        runtime: RuntimeView {
            priority: 20,
            local_baseline: false,
            strong_signals: seq![SignalView::LinePrefixAndAny("Version:"@, seq!["FortiGate"@, "FortiOS"@])],
            negative_signals: seq![],
            startup_prompt: PromptMatcherKind::FortinetHostHash,
            runtime_prompt: PromptMatcherKind::FortinetHostHash,
            prompt_confidence: PromptConfidence::SingleFromBaselineOrRemoteHint,
        },
        rules: Seq::empty(),
    }
}

fn fortinet() -> (r: Profile)
    ensures
        r@ == fortinet_profile(),
{
    let signal_0 = line_prefix_and_any("Version:", vec!["FortiGate", "FortiOS"]);
    assert(signal_0@->LinePrefixAndAny_1 =~= seq!["FortiGate"@, "FortiOS"@]);
    let rules: Vec<RuleSpec> = Vec::new();
    let r = Profile {
        name: copy_text("fortinet"),
        inherits: texts(vec!["generic"]),
        detection: texts(vec!["fortigate", "fortios"]),
        runtime: ProfileRuntimeMeta {
            priority: 20,
            local_baseline: false,
            strong_signals: vec![signal_0],
            negative_signals: Vec::new(),
            startup_prompt: PromptMatcherKind::FortinetHostHash,
            runtime_prompt: PromptMatcherKind::FortinetHostHash,
            prompt_confidence: PromptConfidence::SingleFromBaselineOrRemoteHint,
        },
        rules,
    };
    proof {
        let want = fortinet_profile();
        assert(r@.inherits =~= want.inherits);
        assert(r@.detection =~= want.detection);
        assert(r@.runtime.strong_signals =~~= want.runtime.strong_signals);
        assert(r@.runtime.negative_signals =~~= want.runtime.negative_signals);
        assert(r@.rules =~= want.rules);
    }
    r
}

pub open spec fn arubacx_profile() -> ProfileView {
    ProfileView {
        name: "arubacx"@,
        inherits: seq!["generic"@],
        detection: seq!["arubaos-cx"@, "hpe-restd"@],
        runtime: RuntimeView {
            priority: 30,
            local_baseline: false,
            strong_signals: seq![SignalView::Contains("ArubaOS-CX"@)],
            negative_signals: seq![],
            startup_prompt: PromptMatcherKind::NoPrompt,
            runtime_prompt: PromptMatcherKind::NoPrompt,
            prompt_confidence: PromptConfidence::Repeated,
        },
        rules: Seq::empty(),
    }
}

fn arubacx() -> (r: Profile)
    ensures
        r@ == arubacx_profile(),
{
    let signal_0 = contains("ArubaOS-CX");
    let rules: Vec<RuleSpec> = Vec::new();
    let r = Profile {
        name: copy_text("arubacx"),
        inherits: texts(vec!["generic"]),
        detection: texts(vec!["arubaos-cx", "hpe-restd"]),
        runtime: ProfileRuntimeMeta {
            priority: 30,
            local_baseline: false,
            strong_signals: vec![signal_0],
            negative_signals: Vec::new(),
            startup_prompt: PromptMatcherKind::NoPrompt,
            runtime_prompt: PromptMatcherKind::NoPrompt,
            prompt_confidence: PromptConfidence::Repeated,
        },
        rules,
    };
    proof {
        let want = arubacx_profile();
        assert(r@.inherits =~= want.inherits);
        assert(r@.detection =~= want.detection);
        assert(r@.runtime.strong_signals =~~= want.runtime.strong_signals);
        assert(r@.runtime.negative_signals =~~= want.runtime.negative_signals);
        assert(r@.rules =~= want.rules);
    }
    r
}

pub open spec fn arista_profile() -> ProfileView {
    ProfileView {
        name: "arista"@,
        inherits: seq!["generic"@],
        detection: seq!["arista"@],
        runtime: RuntimeView {
            priority: 40,
            local_baseline: false,
            strong_signals: seq![SignalView::Contains("Arista Networks EOS"@)],
            negative_signals: seq![],
            startup_prompt: PromptMatcherKind::AristaHostMarker,
            runtime_prompt: PromptMatcherKind::AristaHostMarker,
            prompt_confidence: PromptConfidence::Repeated,
        },
        rules: Seq::empty(),
    }
}

fn arista() -> (r: Profile)
    ensures
        r@ == arista_profile(),
{
    let signal_0 = contains("Arista Networks EOS");
    let rules: Vec<RuleSpec> = Vec::new();
    let r = Profile {
        name: copy_text("arista"),
        inherits: texts(vec!["generic"]),
        detection: texts(vec!["arista"]),
        runtime: ProfileRuntimeMeta {
            priority: 40,
            local_baseline: false,
            strong_signals: vec![signal_0],
            negative_signals: Vec::new(),
            startup_prompt: PromptMatcherKind::AristaHostMarker,
            runtime_prompt: PromptMatcherKind::AristaHostMarker,
            prompt_confidence: PromptConfidence::Repeated,
        },
        rules,
    };
    proof {
        let want = arista_profile();
        assert(r@.inherits =~= want.inherits);
        assert(r@.detection =~= want.detection);
        assert(r@.runtime.strong_signals =~~= want.runtime.strong_signals);
        assert(r@.runtime.negative_signals =~~= want.runtime.negative_signals);
        assert(r@.rules =~= want.rules);
    }
    r
}

pub open spec fn cisco_profile() -> ProfileView {
    ProfileView {
        name: "cisco"@,
        inherits: seq!["generic"@],
        detection: seq!["line protocol is"@, "cisco ios"@, "nx-os"@],
        runtime: RuntimeView {
            priority: 50,
            local_baseline: false,
            strong_signals: seq![SignalView::ContainsAny(seq!["Cisco IOS Software"@, "Cisco Nexus Operating System"@])],
            negative_signals: seq![SignalView::ContainsAny(seq!["ArubaOS-CX"@, "hpe-restd"@])],
            startup_prompt: PromptMatcherKind::CiscoHostMarker,
            runtime_prompt: PromptMatcherKind::CiscoHostMarker,
            prompt_confidence: PromptConfidence::Repeated,
        },
        rules: Seq::empty(),
    }
}

fn cisco() -> (r: Profile)
    ensures
        r@ == cisco_profile(),
{
    let signal_0 = contains_any(vec!["Cisco IOS Software", "Cisco Nexus Operating System"]);
    assert(signal_0@->ContainsAny_0 =~= seq!["Cisco IOS Software"@, "Cisco Nexus Operating System"@]);
    let signal_1 = contains_any(vec!["ArubaOS-CX", "hpe-restd"]);
    assert(signal_1@->ContainsAny_0 =~= seq!["ArubaOS-CX"@, "hpe-restd"@]);
    let rules: Vec<RuleSpec> = Vec::new();
    let r = Profile {
        name: copy_text("cisco"),
        inherits: texts(vec!["generic"]),
        detection: texts(vec!["line protocol is", "cisco ios", "nx-os"]),
        runtime: ProfileRuntimeMeta {
            priority: 50,
            local_baseline: false,
            strong_signals: vec![signal_0],
            negative_signals: vec![signal_1],
            startup_prompt: PromptMatcherKind::CiscoHostMarker,
            runtime_prompt: PromptMatcherKind::CiscoHostMarker,
            prompt_confidence: PromptConfidence::Repeated,
        },
        rules,
    };
    proof {
        let want = cisco_profile();
        assert(r@.inherits =~= want.inherits);
        assert(r@.detection =~= want.detection);
        assert(r@.runtime.strong_signals =~~= want.runtime.strong_signals);
        assert(r@.runtime.negative_signals =~~= want.runtime.negative_signals);
        assert(r@.rules =~= want.rules);
    }
    r
}

pub open spec fn palo_alto_profile() -> ProfileView {
    ProfileView {
        name: "palo-alto"@,
        inherits: seq!["generic"@],
        detection: seq!["pan-os"@],
        runtime: RuntimeView {
            priority: 60,
            local_baseline: false,
            strong_signals: seq![SignalView::Contains("PAN-OS"@)],
            negative_signals: seq![],
            startup_prompt: PromptMatcherKind::PaloAltoUserAtHost,
            runtime_prompt: PromptMatcherKind::PaloAltoUserAtHost,
            prompt_confidence: PromptConfidence::Repeated,
        },
        rules: Seq::empty(),
    }
}

fn palo_alto() -> (r: Profile)
    ensures
        r@ == palo_alto_profile(),
{
    let signal_0 = contains("PAN-OS");
    let rules: Vec<RuleSpec> = Vec::new();
    let r = Profile {
        name: copy_text("palo-alto"),
        inherits: texts(vec!["generic"]),
        detection: texts(vec!["pan-os"]),
        runtime: ProfileRuntimeMeta {
            priority: 60,
            local_baseline: false,
            strong_signals: vec![signal_0],
            negative_signals: Vec::new(),
            startup_prompt: PromptMatcherKind::PaloAltoUserAtHost,
            runtime_prompt: PromptMatcherKind::PaloAltoUserAtHost,
            prompt_confidence: PromptConfidence::Repeated,
        },
        rules,
    };
    proof {
        let want = palo_alto_profile();
        assert(r@.inherits =~= want.inherits);
        assert(r@.detection =~= want.detection);
        assert(r@.runtime.strong_signals =~~= want.runtime.strong_signals);
        assert(r@.runtime.negative_signals =~~= want.runtime.negative_signals);
        assert(r@.rules =~= want.rules);
    }
    r
}

pub open spec fn versa_profile() -> ProfileView {
    ProfileView {
        name: "versa"@,
        inherits: seq!["generic"@],
        detection: seq!["versa director"@, "versa networks"@],
        runtime: RuntimeView {
            priority: 70,
            local_baseline: false,
            strong_signals: seq![SignalView::Contains("Versa Director"@)],
            negative_signals: seq![],
            startup_prompt: PromptMatcherKind::VersaUserAtHost,
            runtime_prompt: PromptMatcherKind::VersaUserAtHost,
            prompt_confidence: PromptConfidence::Repeated,
        },
        rules: Seq::empty(),
    }
}

fn versa() -> (r: Profile)
    ensures
        r@ == versa_profile(),
{
    let signal_0 = contains("Versa Director");
    let rules: Vec<RuleSpec> = Vec::new();
    let r = Profile {
        name: copy_text("versa"),
        inherits: texts(vec!["generic"]),
        detection: texts(vec!["versa director", "versa networks"]),
        runtime: ProfileRuntimeMeta {
            priority: 70,
            local_baseline: false,
            strong_signals: vec![signal_0],
            negative_signals: Vec::new(),
            startup_prompt: PromptMatcherKind::VersaUserAtHost,
            runtime_prompt: PromptMatcherKind::VersaUserAtHost,
            prompt_confidence: PromptConfidence::Repeated,
        },
        rules,
    };
    proof {
        let want = versa_profile();
        assert(r@.inherits =~= want.inherits);
        assert(r@.detection =~= want.detection);
        assert(r@.runtime.strong_signals =~~= want.runtime.strong_signals);
        assert(r@.runtime.negative_signals =~~= want.runtime.negative_signals);
        assert(r@.rules =~= want.rules);
    }
    r
}

pub open spec fn linux_unix_profile() -> ProfileView {
    ProfileView {
        name: "linux-unix"@,
        inherits: seq!["generic"@],
        detection: seq!["ubuntu"@, "debian"@, "systemd"@],
        runtime: RuntimeView {
            priority: 80,
            local_baseline: true,
            strong_signals: seq![SignalView::ContainsAny(seq!["OS: Ubuntu"@, "Kernel: Linux"@])],
            negative_signals: seq![],
            startup_prompt: PromptMatcherKind::UnixUserAtHostPath,
            runtime_prompt: PromptMatcherKind::UnixUserAtHostPath,
            prompt_confidence: PromptConfidence::Repeated,
        },
        rules: Seq::empty(),
    }
}

fn linux_unix() -> (r: Profile)
    ensures
        r@ == linux_unix_profile(),
{
    let signal_0 = contains_any(vec!["OS: Ubuntu", "Kernel: Linux"]);
    assert(signal_0@->ContainsAny_0 =~= seq!["OS: Ubuntu"@, "Kernel: Linux"@]);
    let rules: Vec<RuleSpec> = Vec::new();
    let r = Profile {
        name: copy_text("linux-unix"),
        inherits: texts(vec!["generic"]),
        detection: texts(vec!["ubuntu", "debian", "systemd"]),
        runtime: ProfileRuntimeMeta {
            priority: 80,
            local_baseline: true,
            strong_signals: vec![signal_0],
            negative_signals: Vec::new(),
            startup_prompt: PromptMatcherKind::UnixUserAtHostPath,
            runtime_prompt: PromptMatcherKind::UnixUserAtHostPath,
            prompt_confidence: PromptConfidence::Repeated,
        },
        rules,
    };
    proof {
        let want = linux_unix_profile();
        assert(r@.inherits =~= want.inherits);
        assert(r@.detection =~= want.detection);
        assert(r@.runtime.strong_signals =~~= want.runtime.strong_signals);
        assert(r@.runtime.negative_signals =~~= want.runtime.negative_signals);
        assert(r@.rules =~= want.rules);
    }
    r
}

/// The bundled profiles.
pub open spec fn bundled_profiles() -> Seq<ProfileView> {
    seq![
        generic_profile(),
        juniper_profile(),
        fortinet_profile(),
        arubacx_profile(),
        arista_profile(),
        cisco_profile(),
        palo_alto_profile(),
        versa_profile(),
        linux_unix_profile(),
    ]
}

/// A store with the first `n` profiles registered.
pub open spec fn registered(profiles: Seq<ProfileView>, n: int) -> Seq<ProfileView>
    decreases n,
{
    if n <= 0 {
        Seq::empty()
    } else {
        with_profile(registered(profiles, n - 1), profiles[n - 1])
    }
}

impl ProfileStore {
    /// A store with the given profiles, later ones in place of earlier ones of
    /// the same name.
    pub fn from_bundled(profiles: Vec<Profile>) -> (r: ProfileStore)
        ensures
            r.wf(),
            r@ == registered(profile_views(profiles@), profiles@.len() as int),
    {
        let ghost all = profile_views(profiles@);
        let mut store = ProfileStore::new();
        let mut rest: Vec<Profile> = profiles;
        let ghost mut n: int = 0;
        assert(all.skip(0) =~= all);
        while rest.len() > 0
            invariant
                0 <= n <= all.len(),
                profile_views(rest@) == all.skip(n),
                store.wf(),
                store@ == registered(all, n),
            ensures
                rest@.len() == 0,
            decreases rest@.len(),
        {
            let ghost before = profile_views(rest@);
            assert(before[0] == rest@[0]@ && before.len() == rest@.len());
            assert(all.skip(n)[0] == all[n]);
            let profile = rest.remove(0);
            store.insert(profile);
            assert(profile_views(rest@) =~= before.skip(1));
            assert(before.skip(1) =~= all.skip(n + 1));
            proof {
                n = n + 1;
            }
        }
        assert(profile_views(rest@).len() == 0);
        store
    }

    /// The bundled profiles.
    pub fn builtin() -> (r: ProfileStore)
        ensures
            r.wf(),
            r@ == registered(bundled_profiles(), bundled_profiles().len() as int),
    {
        let mut profiles: Vec<Profile> = Vec::new();
        profiles.push(generic());
        profiles.push(juniper());
        profiles.push(fortinet());
        profiles.push(arubacx());
        profiles.push(arista());
        profiles.push(cisco());
        profiles.push(palo_alto());
        profiles.push(versa());
        profiles.push(linux_unix());
        assert(profile_views(profiles@) =~= bundled_profiles());
        ProfileStore::from_bundled(profiles)
    }
}

} // verus!
