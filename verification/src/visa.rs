//! The native driver choice: which VISA binary a variant names on each
//! platform, and the errors a load can end in.

use vstd::prelude::*;

verus! {

/// Spec-level shape of a [`Binary`].
pub enum BinarySpec {
    Keysight,
    NiVisa,
    Primary,
    Custom { path: Seq<char> },
}

/// A distinguishable native driver choice: a named vendor implementation,
/// the platform's primary VISA binary, or a custom path.
#[derive(Clone, Debug, PartialEq, Eq, PartialOrd, Ord, Hash)]
pub enum Binary {
    /// Keysight's VISA binary, present when the Keysight IO libraries are
    /// installed.
    Keysight,
    /// National Instruments' VISA binary, present when NI-VISA is installed.
    NiVisa,
    /// The primary VISA binary, typically present whenever any vendor's
    /// implementation is installed.
    Primary,
    /// A custom path to a binary.
    Custom(String),
}

impl View for Binary {
    type V = BinarySpec;

    open spec fn view(&self) -> BinarySpec {
        match self {
            Binary::Keysight => BinarySpec::Keysight,
            Binary::NiVisa => BinarySpec::NiVisa,
            Binary::Primary => BinarySpec::Primary,
            Binary::Custom(p) => BinarySpec::Custom { path: p@ },
        }
    }
}

impl Default for Binary {
    fn default() -> (r: Binary)
        ensures
            r == Binary::Primary,
    {
        Binary::Primary
    }
}

/// The platform the process runs on, as far as the binary name depends on
/// it. The caller reads it from the build environment.
#[derive(Clone, Copy, Debug, PartialEq, Eq, Hash, Structural)]
pub enum Platform {
    Windows64,
    Windows32,
    Unix64,
    Unix32,
    Other,
}

/// Errors of loading a native driver library.
#[derive(Clone, Debug, PartialEq, Eq)]
pub enum Error {
    /// The library could not be opened.
    OpeningLibraryError(String),
    /// A symbol could not be obtained.
    SymbolGettingError(String),
    /// Value of a symbol was null.
    NullSymbol,
    /// An address could not be matched to a dynamic link library.
    AddrNotMatchingDll(String),
    /// Uncategorized.
    Uncategorized,
    /// The target platform is not supported by any known binary name.
    Unsupported,
}

impl Error {
    /// A short description of the failure.
    pub fn description(&self) -> (r: &'static str)
        ensures
            r@ == spec_description(*self),
    {
        match self {
            Error::OpeningLibraryError(_) => "Could not open library",
            Error::SymbolGettingError(_) => "Could not obtain symbol from the library",
            Error::NullSymbol => "The symbol is NULL",
            Error::AddrNotMatchingDll(_) => "Address does not match any dynamic link library",
            Error::Uncategorized => "Uncategorized",
            Error::Unsupported => "The target system is not supported by visa",
        }
    }
}

/// The description text of each load failure.
pub open spec fn spec_description(e: Error) -> Seq<char> {
    match e {
        Error::OpeningLibraryError(_) => "Could not open library"@,
        Error::SymbolGettingError(_) => "Could not obtain symbol from the library"@,
        Error::NullSymbol => "The symbol is NULL"@,
        Error::AddrNotMatchingDll(_) => "Address does not match any dynamic link library"@,
        Error::Uncategorized => "Uncategorized"@,
        Error::Unsupported => "The target system is not supported by visa"@,
    }
}

/// The binary file name each variant resolves to on each platform.
pub open spec fn spec_binary_name(b: BinarySpec, p: Platform) -> Result<Seq<char>, ()> {
    match b {
        BinarySpec::Keysight => {
            if p == Platform::Windows64 || p == Platform::Windows32 {
                Ok("ktvisa32.dll"@)
            } else if p == Platform::Unix64 {
                Ok("libiovisa.so"@)
            } else {
                Err(())
            }
        },
        BinarySpec::NiVisa => {
            if p == Platform::Windows64 {
                Ok("nivisa64.dll"@)
            } else if p == Platform::Windows32 {
                Ok("visa32.dll"@)
            } else if p == Platform::Unix64 {
                Ok("libvisa.so"@)
            } else {
                Err(())
            }
        },
        BinarySpec::Primary => {
            if p == Platform::Windows64 || p == Platform::Windows32 {
                Ok("visa32"@)
            } else if p == Platform::Unix64 {
                Ok("libvisa.so"@)
            } else if p == Platform::Unix32 {
                Ok("libvisa32.so"@)
            } else {
                Err(())
            }
        },
        BinarySpec::Custom { path } => Ok(path),
    }
}

/// Structural equality of driver variants; custom variants compare by path.
pub fn binary_eq(a: &Binary, b: &Binary) -> (r: bool)
    ensures
        r == (a@ == b@),
{
    match (a, b) {
        (Binary::Keysight, Binary::Keysight) => true,
        (Binary::NiVisa, Binary::NiVisa) => true,
        (Binary::Primary, Binary::Primary) => true,
        (Binary::Custom(x), Binary::Custom(y)) => x.eq(y),
        _ => false,
    }
}

impl Binary {
    /// A structurally equal copy of the variant.
    pub fn duplicate(&self) -> (r: Binary)
        ensures
            r@ == self@,
    {
        match self {
            Binary::Keysight => Binary::Keysight,
            Binary::NiVisa => Binary::NiVisa,
            Binary::Primary => Binary::Primary,
            Binary::Custom(p) => Binary::Custom(p.clone()),
        }
    }

}

impl Binary {
    /// The file name of this driver variant on the given platform.
    pub fn binary_name(&self, platform: Platform) -> (r: Result<String, Error>)
        ensures
            match r {
                Ok(name) => spec_binary_name(self@, platform) == Ok::<Seq<char>, ()>(name@),
                Err(e) => spec_binary_name(self@, platform) == Err::<Seq<char>, ()>(()) && e
                    == Error::Unsupported,
            },
    {
        match self {
            Binary::Keysight => {
                match platform {
                    Platform::Windows64 => Ok(String::from_str("ktvisa32.dll")),
                    Platform::Windows32 => Ok(String::from_str("ktvisa32.dll")),
                    Platform::Unix64 => Ok(String::from_str("libiovisa.so")),
                    _ => Err(Error::Unsupported),
                }
            },
            Binary::NiVisa => {
                match platform {
                    Platform::Windows64 => Ok(String::from_str("nivisa64.dll")),
                    Platform::Windows32 => Ok(String::from_str("visa32.dll")),
                    Platform::Unix64 => Ok(String::from_str("libvisa.so")),
                    _ => Err(Error::Unsupported),
                }
            },
            Binary::Primary => {
                match platform {
                    Platform::Windows64 => Ok(String::from_str("visa32")),
                    Platform::Windows32 => Ok(String::from_str("visa32")),
                    Platform::Unix64 => Ok(String::from_str("libvisa.so")),
                    Platform::Unix32 => Ok(String::from_str("libvisa32.so")),
                    _ => Err(Error::Unsupported),
                }
            },
            Binary::Custom(path) => Ok(path.clone()),
        }
    }
}

} // verus!
