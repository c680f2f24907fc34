use vstd::prelude::*;

verus! {

/// The two target platforms.
#[derive(Debug, Clone, Copy, PartialEq, Eq, Structural)]
pub enum Platform {
    WiiU,
    Switch,
}

/// The byte order of every binary codec.
#[derive(Debug, Clone, Copy, PartialEq, Eq, Structural)]
pub enum Endian {
    Big,
    Little,
}

impl From<Endian> for Platform {
    fn from(e: Endian) -> (r: Platform)
        ensures
            r == Platform::from_endian_spec(e),
    {
        match e {
            Endian::Big => Platform::WiiU,
            Endian::Little => Platform::Switch,
        }
    }
}

impl vstd::std_specs::convert::FromSpecImpl<Endian> for Platform {
    open spec fn obeys_from_spec() -> bool {
        true
    }

    open spec fn from_spec(e: Endian) -> Platform {
        Platform::from_endian_spec(e)
    }
}

impl From<Platform> for Endian {
    fn from(p: Platform) -> (r: Endian)
        ensures
            r == p.endian_spec(),
    {
        match p {
            Platform::WiiU => Endian::Big,
            Platform::Switch => Endian::Little,
        }
    }
}

impl vstd::std_specs::convert::FromSpecImpl<Platform> for Endian {
    open spec fn obeys_from_spec() -> bool {
        true
    }

    open spec fn from_spec(p: Platform) -> Endian {
        p.endian_spec()
    }
}

impl Platform {
    /// Big-endian for the Wii U, little-endian for the Switch.
    pub open spec fn endian_spec(self) -> Endian {
        match self {
            Platform::WiiU => Endian::Big,
            Platform::Switch => Endian::Little,
        }
    }

    pub open spec fn from_endian_spec(e: Endian) -> Platform {
        match e {
            Endian::Big => Platform::WiiU,
            Endian::Little => Platform::Switch,
        }
    }

    /// The byte order of this platform.
    pub fn endian(self) -> (r: Endian)
        ensures
            r == self.endian_spec(),
    {
        Endian::from(self)
    }

    /// The storage subdirectory of this platform.
    pub fn dir_name(self) -> (r: &'static str)
        ensures
            r@ == self.dir_name_spec(),
    {
        proof {
            reveal_strlit("wiiu");
            reveal_strlit("nx");
        }
        match self {
            Platform::WiiU => "wiiu",
            Platform::Switch => "nx",
        }
    }

    pub open spec fn dir_name_spec(self) -> Seq<char> {
        match self {
            Platform::WiiU => seq!['w', 'i', 'i', 'u'],
            Platform::Switch => seq!['n', 'x'],
        }
    }
}

/// Byte order and platform correspond one to one.
pub proof fn lemma_platform_endian_bijective(p: Platform, e: Endian)
    ensures
        Platform::from_endian_spec(p.endian_spec()) == p,
        Platform::from_endian_spec(e).endian_spec() == e,
{
}

#[derive(Debug, Clone, Copy, PartialEq, Eq, Structural)]
pub enum Language {
    USen,
    EUen,
    USfr,
    USes,
    EUde,
    EUes,
    EUfr,
    EUit,
    EUnl,
    EUru,
    CNzh,
    JPja,
    KRko,
    TWzh,
}

#[derive(Debug, Clone, Copy, PartialEq, Eq, Structural)]
pub enum DeployMethod {
    Copy,
    HardLink,
    Symlink,
}

/// Where and how merged output is deployed.
#[derive(Debug)]
pub struct DeployConfig {
    pub output: String,
    pub method: DeployMethod,
    pub auto: bool,
}

/// What is configured for one platform: the source of its vanilla
/// resources, its deployment and its language.
#[derive(Debug)]
pub struct PlatformSettings {
    pub dump: String,
    pub deploy_config: Option<DeployConfig>,
    pub language: Language,
}

/// A snapshot of the persistent settings.
#[derive(Debug)]
pub struct Settings {
    pub current_mode: Platform,
    pub storage_dir: String,
    pub unpack_mods: bool,
    pub wiiu_config: Option<PlatformSettings>,
    pub switch_config: Option<PlatformSettings>,
    pub check_updates: bool,
    pub show_changelog: bool,
}

pub open spec fn join_spec(base: Seq<char>, name: Seq<char>) -> Seq<char> {
    base + seq!['/'] + name
}

/// `name` appended to `base` after a `/`. Paths are modelled as text: unlike
/// `Path::join`, an empty base or one that already ends in `/` still gets the
/// separator, and an absolute `name` does not replace the base.
fn join(base: &str, name: &str) -> (r: String)
    ensures
        r@ == join_spec(base@, name@),
{
    proof {
        reveal_strlit("/");
    }
    let mut r = base.to_owned();
    r.append("/");
    r.append(name);
    r
}

impl Settings {
    /// The default settings, storing under `ukmm` in `config_dir`.
    pub fn default_in(config_dir: &str) -> (r: Settings)
        ensures
            r.current_mode == Platform::WiiU,
            r.storage_dir@ == join_spec(config_dir@, seq!['u', 'k', 'm', 'm']),
            !r.unpack_mods,
            r.wiiu_config is None,
            r.switch_config is None,
            r.check_updates,
            r.show_changelog,
    {
        proof {
            reveal_strlit("ukmm");
        }
        Settings {
            current_mode: Platform::WiiU,
            storage_dir: join(config_dir, "ukmm"),
            unpack_mods: false,
            wiiu_config: None,
            switch_config: None,
            check_updates: true,
            show_changelog: true,
        }
    }

    /// The storage directory of `platform`.
    pub fn get_platform_dir(&self, platform: Platform) -> (r: String)
        ensures
            r@ == join_spec(self.storage_dir@, platform.dir_name_spec()),
    {
        join(self.storage_dir.as_str(), platform.dir_name())
    }

    /// The storage directory of the current platform.
    pub fn platform_dir(&self) -> (r: String)
        ensures
            r@ == join_spec(self.storage_dir@, self.current_mode.dir_name_spec()),
    {
        self.get_platform_dir(self.current_mode)
    }

    /// Where the mods of the current platform are stored.
    pub fn mods_dir(&self) -> (r: String)
        ensures
            r@ == join_spec(join_spec(self.storage_dir@, self.current_mode.dir_name_spec()), seq!['m', 'o', 'd', 's']),
    {
        proof {
            reveal_strlit("mods");
        }
        join(self.platform_dir().as_str(), "mods")
    }

    /// Where the merged output of the current platform is stored.
    pub fn merged_dir(&self) -> (r: String)
        ensures
            r@ == join_spec(join_spec(self.storage_dir@, self.current_mode.dir_name_spec()), seq!['m', 'e', 'r', 'g', 'e', 'd']),
    {
        proof {
            reveal_strlit("merged");
        }
        join(self.platform_dir().as_str(), "merged")
    }

    pub open spec fn platform_config_spec(&self) -> Option<PlatformSettings> {
        match self.current_mode {
            Platform::WiiU => self.wiiu_config,
            Platform::Switch => self.switch_config,
        }
    }

    /// The configuration of the current platform, if any.
    pub fn platform_config(&self) -> (r: Option<&PlatformSettings>)
        ensures
            match self.platform_config_spec() {
                Some(c) => r is Some && *r->Some_0 == c,
                None => r is None,
            },
    {
        match self.current_mode {
            Platform::Switch => self.switch_config.as_ref(),
            Platform::WiiU => self.wiiu_config.as_ref(),
        }
    }

    /// The resource dump configured for the current platform, if any.
    pub fn dump(&self) -> (r: Option<&String>)
        ensures
            match self.platform_config_spec() {
                Some(c) => r is Some && *r->Some_0 == c.dump,
                None => r is None,
            },
    {
        match self.platform_config() {
            Some(c) => Some(&c.dump),
            None => None,
        }
    }

    /// The deployment output of the current platform, if one is configured.
    pub fn deploy_dir(&self) -> (r: Option<&String>)
        ensures
            match self.platform_config_spec() {
                Some(c) => match c.deploy_config {
                    Some(d) => r is Some && *r->Some_0 == d.output,
                    None => r is None,
                },
                None => r is None,
            },
    {
        match self.platform_config() {
            Some(c) => match &c.deploy_config {
                Some(d) => Some(&d.output),
                None => None,
            },
            None => None,
        }
    }
}

} // verus!
