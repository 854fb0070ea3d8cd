use vstd::prelude::*;

verus! {

/// The kinds of package the bundler can produce.
#[derive(Debug, Clone, Copy, PartialEq, Eq)]
pub enum PackageType {
    MacOsBundle,
    IosBundle,
    WindowsMsi,
    Deb,
    Rpm,
    AppImage,
    Dmg,
    Updater,
}

/// The package type a command-line name stands for; `Updater` has no name.
pub open spec fn package_type_named(s: Seq<char>) -> Option<PackageType> {
    if s == "macos"@ {
        Some(PackageType::MacOsBundle)
    } else if s == "ios"@ {
        Some(PackageType::IosBundle)
    } else if s == "msi"@ {
        Some(PackageType::WindowsMsi)
    } else if s == "deb"@ {
        Some(PackageType::Deb)
    } else if s == "rpm"@ {
        Some(PackageType::Rpm)
    } else if s == "appimage"@ {
        Some(PackageType::AppImage)
    } else if s == "dmg"@ {
        Some(PackageType::Dmg)
    } else {
        None
    }
}

impl PackageType {
    /// Reads a package type from its command-line name.
    pub fn from_str(s: &str) -> (r: Result<PackageType, String>)
        ensures
            match package_type_named(s@) {
                Some(p) => r == Ok::<PackageType, String>(p),
                None => r matches Err(m) && m@ == s@ + " is not a valid package type"@,
            },
    {
        let t = String::from_str(s);
        if t == String::from_str("macos") {
            Ok(PackageType::MacOsBundle)
        } else if t == String::from_str("ios") {
            Ok(PackageType::IosBundle)
        } else if t == String::from_str("msi") {
            Ok(PackageType::WindowsMsi)
        } else if t == String::from_str("deb") {
            Ok(PackageType::Deb)
        } else if t == String::from_str("rpm") {
            Ok(PackageType::Rpm)
        } else if t == String::from_str("appimage") {
            Ok(PackageType::AppImage)
        } else if t == String::from_str("dmg") {
            Ok(PackageType::Dmg)
        } else {
            let mut m = t;
            m.append(" is not a valid package type");
            Err(m)
        }
    }
}

} // verus!
