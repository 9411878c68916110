use vstd::prelude::*;
use crate::error::SnapshotError;
use crate::query::str_parse_u64;
use crate::text::str_eq;

verus! {

/// An output format selector.
#[derive(Clone, Copy, Debug)]
pub enum CliFormat {
    Md,
    Json,
    Csv,
    Html,
}

/// A target pick strategy selector.
#[derive(Clone, Copy, Debug)]
pub enum CliPick {
    Largest,
    Count,
}

/// One parsed subcommand with its arguments.
pub enum CliCommand {
    Summary {
        file: String,
        top: usize,
        format: CliFormat,
        json: Option<String>,
        search: Option<String>,
    },
    Retainers {
        file: String,
        id: Option<u64>,
        name: Option<String>,
        pick: CliPick,
        paths: usize,
        max_depth: usize,
        format: CliFormat,
    },
    Build {
        file: String,
        outdir: Option<String>,
        top: usize,
        contains: Option<String>,
    },
    Diff {
        file_a: String,
        file_b: String,
        top: usize,
        contains: Option<String>,
        format: CliFormat,
    },
    Dominator {
        file: String,
        id: Option<u64>,
        name: Option<String>,
        pick: CliPick,
        max_depth: usize,
        format: CliFormat,
    },
    Detail {
        file: String,
        id: Option<u64>,
        name: Option<String>,
        skip: usize,
        limit: usize,
        top_retainers: usize,
        top_edges: usize,
        format: CliFormat,
    },
    Serve {
        file: String,
        bind: String,
        port: u16,
    },
}

/// The parsed command line: the global flags and the subcommand.
pub struct Cli {
    pub verbose: bool,
    pub progress: bool,
    pub command: CliCommand,
}

/// A command-line failure.
fn usage_err() -> (r: SnapshotError)
    ensures
        r is InvalidData,
{
    SnapshotError::InvalidData {
        details: String::from_str("unrecognised or incomplete command line"),
    }
}

/// Splits an argument of the shape `--flag=value` into its two parts;
/// an argument without `=` keeps an empty value part.
fn split_flag(arg: &str) -> (r: (String, Option<String>)) {
    let n = arg.unicode_len();
    let mut i: usize = 0;
    while i < n
        invariant
            n == arg@.len(),
            0 <= i <= n,
        decreases n - i,
    {
        if arg.get_char(i) == '=' {
            let flag = String::from_str(arg.substring_char(0, i));
            let value = String::from_str(arg.substring_char(i + 1, n));
            return (flag, Some(value));
        }
        i += 1;
    }
    (String::from_str(arg), None)
}

/// Reads the value of a flag: either attached with `=`, or the next
/// argument.
fn flag_value(
    attached: Option<String>,
    args: &Vec<String>,
    i: usize,
) -> (r: Result<(String, usize), SnapshotError>)
    requires
        i <= args@.len(),
    ensures
        match r {
            Ok(t) => i <= t.1 <= args@.len(),
            Err(e) => e is InvalidData,
        },
{
    match attached {
        Some(v) => Ok((v, i)),
        None => {
            if i < args.len() {
                Ok((args[i].clone(), i + 1))
            } else {
                Err(usage_err())
            }
        },
    }
}

/// Parses a numeric flag value that must fit `usize`.
fn parse_count(value: &String) -> (r: Result<usize, SnapshotError>)
    ensures
        match r {
            Ok(v) => value@.len() > 0 && crate::query::spec_all_digits(value@) && v
                == crate::query::spec_digits_val(value@, value@.len() as int),
            Err(e) => e is InvalidData && !(value@.len() > 0 && crate::query::spec_all_digits(
                value@,
            ) && crate::query::spec_digits_val(value@, value@.len() as int) <= usize::MAX),
        },
{
    match str_parse_u64(value.as_str()) {
        Some(v) => {
            if v > usize::MAX as u64 {
                Err(usage_err())
            } else {
                Ok(v as usize)
            }
        },
        None => Err(usage_err()),
    }
}

/// Parses a format selector.
fn parse_format(value: &String) -> (r: Result<CliFormat, SnapshotError>)
    ensures
        match r {
            Ok(f) => match f {
                CliFormat::Md => value@ == "md"@,
                CliFormat::Json => value@ == "json"@,
                CliFormat::Csv => value@ == "csv"@,
                CliFormat::Html => value@ == "html"@,
            },
            Err(e) => e is InvalidData && value@ != "md"@ && value@ != "json"@ && value@
                != "csv"@ && value@ != "html"@,
        },
{
    if str_eq(value.as_str(), "md") {
        Ok(CliFormat::Md)
    } else if str_eq(value.as_str(), "json") {
        Ok(CliFormat::Json)
    } else if str_eq(value.as_str(), "csv") {
        Ok(CliFormat::Csv)
    } else if str_eq(value.as_str(), "html") {
        Ok(CliFormat::Html)
    } else {
        Err(usage_err())
    }
}

/// Parses a pick-strategy selector.
fn parse_pick(value: &String) -> (r: Result<CliPick, SnapshotError>)
    ensures
        match r {
            Ok(p) => match p {
                CliPick::Largest => value@ == "largest"@,
                CliPick::Count => value@ == "count"@,
            },
            Err(e) => e is InvalidData && value@ != "largest"@ && value@ != "count"@,
        },
{
    if str_eq(value.as_str(), "largest") {
        Ok(CliPick::Largest)
    } else if str_eq(value.as_str(), "count") {
        Ok(CliPick::Count)
    } else {
        Err(usage_err())
    }
}

/// Parses a boolean flag value.
fn parse_bool(value: &String) -> (r: Result<bool, SnapshotError>)
    ensures
        match r {
            Ok(b) => b == (value@ == "true"@),
            Err(e) => e is InvalidData && value@ != "true"@ && value@ != "false"@,
        },
{
    if str_eq(value.as_str(), "true") {
        Ok(true)
    } else if str_eq(value.as_str(), "false") {
        Ok(false)
    } else {
        Err(usage_err())
    }
}

/// Parses a whole command line, program name first: the global
/// `--verbose` and `--progress` flags, then one subcommand -
/// `summary`, `retainers`, `build`, `diff`, `dominator`, `detail` or
/// `serve` - with its positional files and flags, each flag written
/// `--flag value` or `--flag=value`. Anything else is an
/// `InvalidData` failure.
pub fn try_parse_from(args: Vec<String>) -> (r: Result<Cli, SnapshotError>)
    ensures
        r matches Err(e) ==> e is InvalidData,
        r is Ok ==> args@.len() >= 2,
        r matches Ok(c) ==> {
            let word = match c.command {
                CliCommand::Summary { .. } => "summary"@,
                CliCommand::Retainers { .. } => "retainers"@,
                CliCommand::Build { .. } => "build"@,
                CliCommand::Diff { .. } => "diff"@,
                CliCommand::Dominator { .. } => "dominator"@,
                CliCommand::Detail { .. } => "detail"@,
                CliCommand::Serve { .. } => "serve"@,
            };
            exists|k: int| 1 <= k < args@.len() && (#[trigger] args@[k])@ == word
        },
{
    let total = args.len();
    if total < 2 {
        return Err(usage_err());
    }
    let mut i: usize = 1;
    let mut verbose = false;
    let mut progress = true;

    // global flags come before the subcommand
    while i < total
        invariant
            total == args@.len(),
            1 <= i <= total,
        decreases total - i,
    {
        let parts = split_flag(args[i].as_str());
        let (flag, attached) = parts;
        if str_eq(flag.as_str(), "--verbose") {
            verbose = true;
            i += 1;
        } else if str_eq(flag.as_str(), "--progress") {
            match attached {
                Some(v) => {
                    progress = parse_bool(&v)?;
                    i += 1;
                },
                None => {
                    progress = true;
                    i += 1;
                },
            }
        } else {
            break;
        }
    }
    if i >= total {
        return Err(usage_err());
    }

    let sub = args[i].clone();
    let ghost sub_ix = i as int;
    proof {
        assert(sub@ == (args@[sub_ix])@);
    }
    let mut j = i + 1;

    // collect positionals and flags for the subcommand
    let mut positionals: Vec<String> = Vec::new();
    let mut top: usize = 50;
    let mut format = CliFormat::Md;
    let mut json_path: Option<String> = None;
    let mut search: Option<String> = None;
    let mut contains: Option<String> = None;
    let mut id: Option<u64> = None;
    let mut name: Option<String> = None;
    let mut pick = CliPick::Largest;
    let mut paths: usize = 5;
    let mut max_depth: usize = 10;
    let mut outdir: Option<String> = None;
    let mut skip: usize = 0;
    let mut limit: usize = 25;
    let mut top_retainers: usize = 10;
    let mut top_edges: usize = 10;
    let mut bind = String::from_str("127.0.0.1");
    let mut port: u16 = 7878;

    while j < total
        invariant
            total == args@.len(),
            0 <= j <= total,
        decreases total - j,
    {
        let parts = split_flag(args[j].as_str());
        let (flag, attached) = parts;
        let next = j + 1;
        if str_eq(flag.as_str(), "--top") {
            let fv = flag_value(attached, &args, next)?;
            top = parse_count(&fv.0)?;
            j = fv.1;
        } else if str_eq(flag.as_str(), "--format") {
            let fv = flag_value(attached, &args, next)?;
            format = parse_format(&fv.0)?;
            j = fv.1;
        } else if str_eq(flag.as_str(), "--json") {
            let fv = flag_value(attached, &args, next)?;
            json_path = Some(fv.0);
            j = fv.1;
        } else if str_eq(flag.as_str(), "--search") || str_eq(flag.as_str(), "--contains") {
            let fv = flag_value(attached, &args, next)?;
            search = Some(fv.0.clone());
            contains = Some(fv.0);
            j = fv.1;
        } else if str_eq(flag.as_str(), "--id") {
            let fv = flag_value(attached, &args, next)?;
            match str_parse_u64(fv.0.as_str()) {
                Some(v) => {
                    id = Some(v);
                },
                None => {
                    return Err(usage_err());
                },
            }
            j = fv.1;
        } else if str_eq(flag.as_str(), "--name") {
            let fv = flag_value(attached, &args, next)?;
            name = Some(fv.0);
            j = fv.1;
        } else if str_eq(flag.as_str(), "--pick") {
            let fv = flag_value(attached, &args, next)?;
            pick = parse_pick(&fv.0)?;
            j = fv.1;
        } else if str_eq(flag.as_str(), "--paths") {
            let fv = flag_value(attached, &args, next)?;
            paths = parse_count(&fv.0)?;
            j = fv.1;
        } else if str_eq(flag.as_str(), "--max-depth") {
            let fv = flag_value(attached, &args, next)?;
            max_depth = parse_count(&fv.0)?;
            j = fv.1;
        } else if str_eq(flag.as_str(), "--outdir") {
            let fv = flag_value(attached, &args, next)?;
            outdir = Some(fv.0);
            j = fv.1;
        } else if str_eq(flag.as_str(), "--skip") {
            let fv = flag_value(attached, &args, next)?;
            skip = parse_count(&fv.0)?;
            j = fv.1;
        } else if str_eq(flag.as_str(), "--limit") {
            let fv = flag_value(attached, &args, next)?;
            limit = parse_count(&fv.0)?;
            j = fv.1;
        } else if str_eq(flag.as_str(), "--top-retainers") {
            let fv = flag_value(attached, &args, next)?;
            top_retainers = parse_count(&fv.0)?;
            j = fv.1;
        } else if str_eq(flag.as_str(), "--top-edges") {
            let fv = flag_value(attached, &args, next)?;
            top_edges = parse_count(&fv.0)?;
            j = fv.1;
        } else if str_eq(flag.as_str(), "--bind") {
            let fv = flag_value(attached, &args, next)?;
            bind = fv.0;
            j = fv.1;
        } else if str_eq(flag.as_str(), "--port") {
            let fv = flag_value(attached, &args, next)?;
            let v = parse_count(&fv.0)?;
            if v > u16::MAX as usize {
                return Err(usage_err());
            }
            port = v as u16;
            j = fv.1;
        } else if str_eq(flag.as_str(), "--verbose") {
            verbose = true;
            j += 1;
        } else if str_eq(flag.as_str(), "--progress") {
            match attached {
                Some(v) => {
                    progress = parse_bool(&v)?;
                },
                None => {
                    progress = true;
                },
            }
            j += 1;
        } else {
            positionals.push(args[j].clone());
            j += 1;
        }
    }

    let command = if str_eq(sub.as_str(), "summary") {
        if positionals.len() != 1 {
            return Err(usage_err());
        }
        let file = positionals.remove(0);
        CliCommand::Summary { file, top, format, json: json_path, search }
    } else if str_eq(sub.as_str(), "retainers") {
        if positionals.len() != 1 {
            return Err(usage_err());
        }
        let file = positionals.remove(0);
        CliCommand::Retainers { file, id, name, pick, paths, max_depth, format }
    } else if str_eq(sub.as_str(), "build") {
        if positionals.len() != 1 || outdir.is_none() {
            return Err(usage_err());
        }
        let file = positionals.remove(0);
        CliCommand::Build { file, outdir, top, contains }
    } else if str_eq(sub.as_str(), "diff") {
        if positionals.len() != 2 {
            return Err(usage_err());
        }
        let file_a = positionals.remove(0);
        let file_b = positionals.remove(0);
        CliCommand::Diff { file_a, file_b, top, contains, format }
    } else if str_eq(sub.as_str(), "dominator") {
        if positionals.len() != 1 {
            return Err(usage_err());
        }
        let file = positionals.remove(0);
        CliCommand::Dominator { file, id, name, pick, max_depth, format }
    } else if str_eq(sub.as_str(), "detail") {
        if positionals.len() != 1 {
            return Err(usage_err());
        }
        let file = positionals.remove(0);
        CliCommand::Detail { file, id, name, skip, limit, top_retainers, top_edges, format }
    } else if str_eq(sub.as_str(), "serve") {
        if positionals.len() != 1 {
            return Err(usage_err());
        }
        let file = positionals.remove(0);
        CliCommand::Serve { file, bind, port }
    } else {
        return Err(usage_err());
    };

    Ok(Cli { verbose, progress, command })
}

} // verus!
