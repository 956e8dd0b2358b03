//! The command-line surface, as plain data.
//!
//! Argument parsing itself belongs to the embedding program; these types
//! carry the parsed choices into the library.

use vstd::prelude::*;

verus! {

/// Everything one invocation asks for.
pub struct Arguments {
    /// The command to execute.
    pub command: Commands,
    /// How talkative the run should be.
    pub verbosity: Verbosity,
}

/// The mutually exclusive verbosity switches.
pub struct Verbosity {
    /// Enable debugging output.
    pub debug: bool,
    /// Enable verbose output.
    pub verbose: bool,
    /// Suppress informational messages.
    pub quiet: bool,
}

/// The log levels an invocation can run at.
#[derive(Debug, Clone, Copy, PartialEq, Eq, Structural)]
pub enum FilterLevel {
    /// Everything, down to tracing.
    Trace,
    /// Debugging detail.
    Debug,
    /// Warnings and errors only.
    Warn,
    /// The default: informational and up.
    Info,
}

impl Verbosity {
    /// The log level the switches select: debugging wins over verbose,
    /// verbose over quiet, and with no switch set the default applies.
    pub fn to_filter(&self) -> (r: FilterLevel)
        ensures
            self.debug ==> r == FilterLevel::Trace,
            !self.debug && self.verbose ==> r == FilterLevel::Debug,
            !self.debug && !self.verbose && self.quiet ==> r == FilterLevel::Warn,
            !self.debug && !self.verbose && !self.quiet ==> r == FilterLevel::Info,
    {
        if self.debug {
            FilterLevel::Trace
        } else if self.verbose {
            FilterLevel::Debug
        } else if self.quiet {
            FilterLevel::Warn
        } else {
            FilterLevel::Info
        }
    }
}

/// The top-level commands.
pub enum Commands {
    /// Generate a new secret key or username.
    Generate {
        /// The generator to run.
        command: GenerateCommands,
    },
    /// Cryptographically analyze a piece of data.
    Analyze {
        /// A path to a file, or nothing to read the standard input.
        input: Option<String>,
    },
    /// Render a piece of data as a bitmap.
    Visualize {
        /// A path to a file, or nothing to read the standard input.
        input: Option<String>,
        /// A path to write the image to, or nothing for standard output.
        output: Option<String>,
    },
}

/// The length window and hyperparameters of a Markov request.
pub struct LengthRange {
    /// The shortest acceptable word, inclusive.
    pub minimum: usize,
    /// The shortest unacceptable word: the exclusive upper bound.
    pub maximum: usize,
}

/// The training hyperparameters of a Markov request.
pub struct ModelParameters {
    /// The context length.
    pub order: usize,
    /// The additive smoothing weight.
    pub prior: u64,
    /// Whether lower-order models back the top one up.
    pub backoff: bool,
}

/// The cache switches of a Markov request.
pub struct CacheControl {
    /// Never touch the cache.
    pub no_cache: bool,
    /// Rebuild and overwrite the cache without reading it.
    pub rebuild_cache: bool,
}

/// The value generators an invocation can run.
pub enum GenerateCommands {
    /// Generate random bytes.
    Bytes {
        /// The number of bytes to generate.
        length: usize,
    },
    /// Generate random bytes and encode them as a hexadecimal string.
    Hex {
        /// Print hexadecimal digits in uppercase.
        uppercase: bool,
        /// The number of bytes to generate.
        length: usize,
    },
    /// Generate random bytes and encode them as a Base64 string.
    Base64 {
        /// Use a URL-safe alphabet.
        url_safe: bool,
        /// The number of bytes to generate.
        length: usize,
    },
    /// Generate a random password with a configurable character set.
    Password {
        /// Include digits in the character set.
        numbers: bool,
        /// Include punctuation in the character set.
        symbols: bool,
        /// The number of characters to generate.
        length: usize,
        /// How many passwords to generate.
        count: Option<usize>,
    },
    /// Generate a passphrase of words chosen at random from a wordlist.
    Passphrase {
        /// The wordlist file to read into memory.
        path: Option<String>,
        /// What separates words from each other in the wordlist file.
        delimiter: char,
        /// What separates words in the passphrase.
        separator: String,
        /// The number of words to generate.
        length: usize,
        /// How many passphrases to generate.
        count: Option<usize>,
    },
    /// Generate a random pronounceable username.
    Username {
        /// Make the first letter uppercase.
        capitalize: bool,
        /// The username shape to generate.
        command: UsernameCommands,
    },
    /// Generate a random sequence of digits.
    Digits {
        /// The number of digits to generate.
        length: usize,
        /// How many sequences of digits to generate.
        count: Option<usize>,
    },
    /// Generate a random number.
    Number {
        /// The smallest number that can be generated.
        minimum: usize,
        /// The largest number that can be generated.
        maximum: usize,
        /// How many numbers to generate.
        count: Option<usize>,
    },
    /// Generate procedural words from a Markov chain trained on a corpus.
    Markov {
        /// Make the first letter uppercase.
        capitalize: bool,
        /// The corpus file to train on, or nothing for the default corpus.
        path: Option<String>,
        /// The acceptable word-length window.
        length_range: LengthRange,
        /// The training hyperparameters.
        model_parameters: ModelParameters,
        /// The cache switches.
        cache_control: CacheControl,
        /// How many words to generate.
        count: Option<usize>,
    },
}

/// The username shapes.
pub enum UsernameCommands {
    /// Alternate between vowels and consonants.
    Simple {
        /// The number of characters to generate.
        length: usize,
        /// How many simple usernames to generate.
        count: Option<usize>,
    },
    /// Construct the username from syllables.
    Complex {
        /// The number of syllables to generate.
        length: usize,
        /// How many syllabic usernames to generate.
        count: Option<usize>,
    },
}

} // verus!
