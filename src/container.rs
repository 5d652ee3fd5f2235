//! Condensed summaries of `docker compose` output.
use crate::rgai_cmd::{contains_item, join_comma, push_unique_spec, views};
use crate::text::{
    append_chars, append_str, byte_len, byte_len_min, chars_of, contains, contains_chars, copy_chars,
    decimal, decimal_chars, equals_str, find, find_chars, first_word, first_word_chars, lines_of,
    min_nat, seq_equal, slice_chars, split_lines, split_on, split_on_char, starts_with,
    starts_with_str, string_of, trim, trim_chars, trim_end, trim_start, trim_start_chars,
};
use vstd::prelude::*;

verus! {

/// The container commands whose output is condensed.
#[derive(Debug, Clone, Copy, PartialEq, Eq, Structural)]
pub enum ContainerCmd {
    DockerPs,
    DockerImages,
    DockerLogs,
    KubectlPods,
    KubectlServices,
    KubectlLogs,
}

// ---------------------------------------------------------------------------
// Ports
// ---------------------------------------------------------------------------
/// The host port of one mapping such as `0.0.0.0:8080->80/tcp`: the last
/// `:`-separated piece of what precedes the first `->`.
pub open spec fn port_of(mapping: Seq<char>) -> Seq<char> {
    let head = match find(mapping, "->"@) {
        Some(i) => mapping.take(i),
        None => mapping,
    };
    let parts = split_on(head, ':');
    parts[parts.len() - 1]
}

/// The host ports of a comma-separated list of mappings.
pub open spec fn port_list(ports: Seq<char>) -> Seq<Seq<char>> {
    split_on(ports, ',').map_values(|m: Seq<char>| port_of(m))
}

/// A port list shortened to its host ports: all of them where there are at
/// most three, else the first two and the count of the rest.
pub open spec fn compact_ports_spec(ports: Seq<char>) -> Seq<char> {
    let n = port_list(ports);
    if ports.len() == 0 {
        "-"@
    } else if n.len() <= 3 {
        join_comma(n)
    } else {
        n[0] + ", "@ + n[1] + ", ... +"@ + decimal((n.len() - 2) as nat)
    }
}

fn port_of_exec(mapping: &Vec<char>) -> (r: Vec<char>)
    ensures
        r@ == port_of(mapping@),
{
    let arrow = chars_of("->");
    let head = match find_chars(mapping, &arrow) {
        Some(i) => {
            proof {
                crate::text::lemma_find_from(mapping@, arrow@, 0);
            }
            slice_chars(mapping, 0, i)
        },
        None => copy_chars(mapping),
    };
    let parts = split_on_char(&head, ':');
    proof {
        crate::text::lemma_split_on_len(head@, ':');
    }
    copy_chars(&parts[parts.len() - 1])
}

/// Shortens a port list to its host ports.
pub fn compact_ports(ports: &str) -> (r: String)
    ensures
        r@ == compact_ports_spec(ports@),
{
    let p = chars_of(ports);
    let mut out: Vec<char> = Vec::new();
    if p.len() == 0 {
        append_str(&mut out, "-");
        return string_of(&out);
    }
    let pieces = split_on_char(&p, ',');
    let ghost pv = split_on(p@, ',');
    let mut nums: Vec<Vec<char>> = Vec::new();
    let mut i: usize = 0;
    while i < pieces.len()
        invariant
            i <= pieces@.len(),
            pieces@.len() == pv.len(),
            forall|k: int| 0 <= k < pieces@.len() ==> #[trigger] pieces@[k]@ == pv[k],
            views(nums@) == pv.take(i as int).map_values(|m: Seq<char>| port_of(m)),
        decreases pieces.len() - i,
    {
        let n = port_of_exec(&pieces[i]);
        let ghost before = nums@;
        nums.push(n);
        assert(n@ == port_of(pv[i as int]));
        assert(views(nums@) =~= views(before).push(n@));
        assert(pv.take(i + 1).map_values(|m: Seq<char>| port_of(m)) =~= pv.take(i as int).map_values(
            |m: Seq<char>| port_of(m),
        ).push(port_of(pv[i as int])));
        i += 1;
    }
    assert(pv.take(pv.len() as int) =~= pv);
    let ghost nv = port_list(p@);
    assert(views(nums@) == nv);
    let count = nums.len();
    if count <= 3 {
        let mut k: usize = 0;
        assert(nv.take(0) =~= Seq::<Seq<char>>::empty());
        while k < count
            invariant
                k <= count == nums@.len(),
                views(nums@) == nv,
                out@ == join_comma(nv.take(k as int)),
            decreases count - k,
        {
            assert(nv.take(k + 1).drop_last() =~= nv.take(k as int));
            assert(nums@[k as int]@ == nv[k as int]);
            if k > 0 {
                append_str(&mut out, ", ");
            }
            append_chars(&mut out, &nums[k]);
            proof {
                if k == 0 {
                    assert(nv.take(1) =~= seq![nv[0]]);
                }
            }
            assert(out@ =~= join_comma(nv.take(k + 1)));
            k += 1;
        }
        assert(nv.take(count as int) =~= nv);
        return string_of(&out);
    }
    assert(nums@[0]@ == nv[0] && nums@[1]@ == nv[1]);
    append_chars(&mut out, &nums[0]);
    append_str(&mut out, ", ");
    append_chars(&mut out, &nums[1]);
    append_str(&mut out, ", ... +");
    let d = decimal_chars(count - 2);
    append_chars(&mut out, &d);
    string_of(&out)
}

// ---------------------------------------------------------------------------
// docker compose build
// ---------------------------------------------------------------------------
/// Index of the first of the lines from `i` on that holds both `Building`
/// and `FINISHED`.
pub open spec fn finished_line_from(lines: Seq<Seq<char>>, i: int) -> Option<int>
    decreases lines.len() - i,
{
    if i < 0 || i >= lines.len() {
        None
    } else if contains(lines[i], "Building"@) && contains(lines[i], "FINISHED"@) {
        Some(i)
    } else {
        finished_line_from(lines, i + 1)
    }
}

proof fn lemma_line_from_bounds(lines: Seq<Seq<char>>, i: int)
    requires
        0 <= i,
    ensures
        finished_line_from(lines, i) matches Some(k) ==> i <= k < lines.len(),
        building_line_from(lines, i) matches Some(k) ==> i <= k < lines.len(),
    decreases lines.len() - i,
{
    if i < lines.len() {
        lemma_line_from_bounds(lines, i + 1);
    }
}

/// Index of the first of the lines from `i` on that holds `Building`.
pub open spec fn building_line_from(lines: Seq<Seq<char>>, i: int) -> Option<int>
    decreases lines.len() - i,
{
    if i < 0 || i >= lines.len() {
        None
    } else if contains(lines[i], "Building"@) {
        Some(i)
    } else {
        building_line_from(lines, i + 1)
    }
}

/// The first line of a build summary: the finished `Building` line, else the
/// first `Building` line, else a bare heading.
pub open spec fn build_head(lines: Seq<Seq<char>>) -> Seq<char> {
    match finished_line_from(lines, 0) {
        Some(i) => "\u{1F433} "@ + trim(lines[i]) + "\n"@,
        None => match building_line_from(lines, 0) {
            Some(i) => "\u{1F433} "@ + trim(lines[i]) + "\n"@,
            None => "\u{1F433} Build:\n"@,
        },
    }
}

/// The service named in a build step's brackets, such as `web` in
/// `[web 1/4]`; empty where there is none. The opening bracket's byte offset
/// counts characters, and so does the closing one's.
pub open spec fn bracket_service(line: Seq<char>) -> Seq<char> {
    match find(line, "["@) {
        None => seq![],
        Some(ci) => {
            let skip = min_nat(byte_len(line.take(ci)) + 1, line.len());
            let after = line.skip(skip as int);
            match find(after, "]"@) {
                None => seq![],
                Some(ei) => first_word(after.take(min_nat(byte_len(after.take(ei)), after.len()) as int)),
            }
        },
    }
}

/// The services named by the first `j` lines, each once, in order.
pub open spec fn services_upto(lines: Seq<Seq<char>>, j: int) -> Seq<Seq<char>>
    decreases j,
{
    if j <= 0 {
        seq![]
    } else {
        let s = services_upto(lines, j - 1);
        let svc = bracket_service(lines[j - 1]);
        if svc.len() > 0 && svc != "+"@ {
            push_unique_spec(s, svc)
        } else {
            s
        }
    }
}

/// The number of the first `j` lines that are build steps (`=> ` after
/// leading whitespace).
pub open spec fn steps_upto(lines: Seq<Seq<char>>, j: int) -> nat
    decreases j,
{
    if j <= 0 {
        0
    } else {
        steps_upto(lines, j - 1) + (if starts_with(trim_start(lines[j - 1]), "=> "@) {
            1nat
        } else {
            0nat
        })
    }
}

/// The build summary: its heading, the services, and the step count.
pub open spec fn compose_build_spec(raw: Seq<char>) -> Seq<char> {
    let lines = lines_of(raw);
    let services = services_upto(lines, lines.len() as int);
    let steps = steps_upto(lines, lines.len() as int);
    if trim(raw).len() == 0 {
        "\u{1F433} Build: no output"@
    } else {
        trim_end(
            build_head(lines) + (if services.len() > 0 {
                "  Services: "@ + join_comma(services) + "\n"@
            } else {
                seq![]
            }) + (if steps > 0 {
                "  Steps: "@ + decimal(steps)
            } else {
                seq![]
            }),
        )
    }
}

fn bracket_service_exec(line: &Vec<char>) -> (r: Vec<char>)
    ensures
        r@ == bracket_service(line@),
{
    let open = chars_of("[");
    let close = chars_of("]");
    match find_chars(line, &open) {
        None => Vec::new(),
        Some(ci) => {
            proof {
                crate::text::lemma_find_from(line@, open@, 0);
            }
            let head = slice_chars(line, 0, ci);
            assert(head@ =~= line@.take(ci as int));
            let b = byte_len_min(&head, line.len());
            let skip: usize = if b >= line.len() {
                line.len()
            } else {
                b + 1
            };
            let after = slice_chars(line, skip, line.len());
            assert(after@ =~= line@.skip(skip as int));
            match find_chars(&after, &close) {
                None => Vec::new(),
                Some(ei) => {
                    proof {
                        crate::text::lemma_find_from(after@, close@, 0);
                    }
                    let ah = slice_chars(&after, 0, ei);
                    assert(ah@ =~= after@.take(ei as int));
                    let eb = byte_len_min(&ah, after.len());
                    let bracket = slice_chars(&after, 0, eb);
                    assert(bracket@ =~= after@.take(eb as int));
                    first_word_chars(&bracket)
                },
            }
        },
    }
}

fn find_finished(lines: &Vec<Vec<char>>) -> (r: Option<usize>)
    ensures
        match r {
            Some(k) => finished_line_from(views(lines@), 0) == Some(k as int),
            None => finished_line_from(views(lines@), 0) is None,
        },
{
    let ghost lv = views(lines@);
    let building = chars_of("Building");
    let finished = chars_of("FINISHED");
    let mut i: usize = 0;
    while i < lines.len()
        invariant
            i <= lines@.len(),
            lv == views(lines@),
            building@ == "Building"@,
            finished@ == "FINISHED"@,
            finished_line_from(lv, 0) == finished_line_from(lv, i as int),
        decreases lines.len() - i,
    {
        assert(lines@[i as int]@ == lv[i as int]);
        if contains_chars(&lines[i], &building) && contains_chars(&lines[i], &finished) {
            return Some(i);
        }
        i += 1;
    }
    None
}

fn find_building(lines: &Vec<Vec<char>>) -> (r: Option<usize>)
    ensures
        match r {
            Some(k) => building_line_from(views(lines@), 0) == Some(k as int),
            None => building_line_from(views(lines@), 0) is None,
        },
{
    let ghost lv = views(lines@);
    let building = chars_of("Building");
    let mut i: usize = 0;
    while i < lines.len()
        invariant
            i <= lines@.len(),
            lv == views(lines@),
            building@ == "Building"@,
            building_line_from(lv, 0) == building_line_from(lv, i as int),
        decreases lines.len() - i,
    {
        assert(lines@[i as int]@ == lv[i as int]);
        if contains_chars(&lines[i], &building) {
            return Some(i);
        }
        i += 1;
    }
    None
}

fn trim_end_chars(s: &Vec<char>) -> (r: Vec<char>)
    ensures
        r@ == trim_end(s@),
{
    let mut j: usize = s.len();
    assert(s@.subrange(0, j as int) =~= s@);
    while j > 0 && crate::text::is_whitespace(s[j - 1])
        invariant
            j <= s@.len(),
            trim_end(s@) == trim_end(s@.subrange(0, j as int)),
        decreases j,
    {
        assert(s@.subrange(0, j as int).drop_last() =~= s@.subrange(0, j - 1));
        j -= 1;
    }
    slice_chars(s, 0, j)
}

/// Condenses `docker compose build` output to its summary line, the services
/// built, and the number of steps.
pub fn format_compose_build(raw: &str) -> (r: String)
    ensures
        r@ == compose_build_spec(raw@),
{
    let text = chars_of(raw);
    let t = trim_chars(&text);
    let mut out: Vec<char> = Vec::new();
    if t.len() == 0 {
        append_str(&mut out, "\u{1F433} Build: no output");
        return string_of(&out);
    }
    let lines = split_lines(&text);
    let ghost lv = lines_of(raw@);
    assert(views(lines@) =~= lv);
    let building = chars_of("Building");
    let finished = chars_of("FINISHED");
    let found = match find_finished(&lines) {
        Some(k) => Some(k),
        None => find_building(&lines),
    };
    proof {
        lemma_line_from_bounds(lv, 0);
    }
    match found {
        Some(k) => {
            assert(lines@[k as int]@ == lv[k as int]);
            append_str(&mut out, "\u{1F433} ");
            let tl = trim_chars(&lines[k]);
            append_chars(&mut out, &tl);
            append_str(&mut out, "\n");
        },
        None => {
            append_str(&mut out, "\u{1F433} Build:\n");
        },
    }
    assert(out@ == build_head(lv));
    // services and steps
    let mut services: Vec<Vec<char>> = Vec::new();
    let mut steps: usize = 0;
    let mut j: usize = 0;
    while j < lines.len()
        invariant
            j <= lines@.len(),
            lv == views(lines@),
            views(services@) == services_upto(lv, j as int),
            steps == steps_upto(lv, j as int),
            steps <= j,
        decreases lines.len() - j,
    {
        assert(lines@[j as int]@ == lv[j as int]);
        let svc = bracket_service_exec(&lines[j]);
        if svc.len() > 0 && !equals_str(&svc, "+") {
            let present = contains_item(&services, &svc);
            if !present {
                let ghost before = services@;
                services.push(svc);
                assert(views(services@) =~= views(before).push(svc@));
            }
        }
        let ts = trim_start_chars(&lines[j]);
        if starts_with_str(&ts, "=> ") {
            steps = steps + 1;
        }
        j += 1;
    }
    let ghost sv = services_upto(lv, lv.len() as int);
    let ghost head = out@;
    assert(views(services@) == sv);
    if services.len() > 0 {
        append_str(&mut out, "  Services: ");
        let mut k: usize = 0;
        let ghost start = out@;
        assert(sv.take(0) =~= Seq::<Seq<char>>::empty());
        while k < services.len()
            invariant
                k <= services@.len(),
                views(services@) == sv,
                out@ == start + join_comma(sv.take(k as int)),
            decreases services.len() - k,
        {
            assert(sv.take(k + 1).drop_last() =~= sv.take(k as int));
            assert(services@[k as int]@ == sv[k as int]);
            if k > 0 {
                append_str(&mut out, ", ");
            }
            append_chars(&mut out, &services[k]);
            proof {
                if k == 0 {
                    assert(sv.take(1) =~= seq![sv[0]]);
                }
            }
            assert(out@ =~= start + join_comma(sv.take(k + 1)));
            k += 1;
        }
        assert(sv.take(services@.len() as int) =~= sv);
        append_str(&mut out, "\n");
    }
    let ghost mid = out@;
    assert(mid == head + (if sv.len() > 0 {
        "  Services: "@ + join_comma(sv) + "\n"@
    } else {
        seq![]
    }));
    if steps > 0 {
        append_str(&mut out, "  Steps: ");
        let d = decimal_chars(steps);
        append_chars(&mut out, &d);
    }
    assert(out@ =~= build_head(lv) + (if sv.len() > 0 {
        "  Services: "@ + join_comma(sv) + "\n"@
    } else {
        seq![]
    }) + (if steps > 0 {
        "  Steps: "@ + decimal(steps as nat)
    } else {
        seq![]
    }));
    let r = trim_end_chars(&out);
    assert(r@ == compose_build_spec(raw@));
    string_of(&r)
}

// ---------------------------------------------------------------------------
// docker compose ps
// ---------------------------------------------------------------------------
/// Words completed, and the word being read, after the first `i` characters.
pub open spec fn words_state(s: Seq<char>, i: int) -> (Seq<Seq<char>>, Seq<char>)
    decreases i,
{
    if i <= 0 {
        (seq![], seq![])
    } else {
        let prev = words_state(s, i - 1);
        let c = s[i - 1];
        if !crate::text::is_ws(c) {
            (prev.0, prev.1.push(c))
        } else if prev.1.len() > 0 {
            (prev.0.push(prev.1), seq![])
        } else {
            prev
        }
    }
}

/// The whitespace-separated words of `s`, as `str::split_whitespace` yields them.
pub open spec fn words(s: Seq<char>) -> Seq<Seq<char>> {
    let st = words_state(s, s.len() as int);
    if st.1.len() > 0 {
        st.0.push(st.1)
    } else {
        st.0
    }
}

fn split_whitespace_chars(s: &Vec<char>) -> (r: Vec<Vec<char>>)
    ensures
        views(r@) == words(s@),
{
    let mut out: Vec<Vec<char>> = Vec::new();
    let mut cur: Vec<char> = Vec::new();
    let mut i: usize = 0;
    while i < s.len()
        invariant
            i <= s.len(),
            (views(out@), cur@) == words_state(s@, i as int),
        decreases s.len() - i,
    {
        let c = s[i];
        if !crate::text::is_whitespace(c) {
            cur.push(c);
        } else if cur.len() > 0 {
            let ghost before = out@;
            out.push(cur);
            assert(views(out@) =~= views(before).push(cur@));
            cur = Vec::new();
        }
        i += 1;
    }
    if cur.len() > 0 {
        let ghost before = out@;
        out.push(cur);
        assert(views(out@) =~= views(before).push(cur@));
    }
    out
}

/// The status text from `idx` on, up to a run of three spaces, trimmed.
pub open spec fn status_from(line: Seq<char>, idx: int) -> Seq<char> {
    let rest = line.skip(idx);
    let end = match find(rest, "   "@) {
        Some(e) => e,
        None => rest.len() as int,
    };
    trim(rest.take(end))
}

/// A service's status: from its `Up` or else its `Exited`, or `unknown`.
pub open spec fn ps_status(line: Seq<char>) -> Seq<char> {
    match find(line, "Up"@) {
        Some(i) => status_from(line, i),
        None => match find(line, "Exited"@) {
            Some(i) => status_from(line, i),
            None => "unknown"@,
        },
    }
}

/// The character offset at which the port text starts: the byte offset of
/// the last `0.0.0.0:`, counted as characters, and at most the line's end
/// (where multibyte text precedes it the port text is cut short or empty).
pub open spec fn port_start(line: Seq<char>) -> Option<nat> {
    match crate::text::rfind(line, "0.0.0.0:"@) {
        Some(ci) => Some(min_nat(byte_len(line.take(ci)), line.len())),
        None => None,
    }
}

/// The port part of a service row.
pub open spec fn ps_port(line: Seq<char>) -> Seq<char> {
    match port_start(line) {
        Some(b) => " ["@ + compact_ports_spec(trim(line.skip(b as int))) + "]"@,
        None => seq![],
    }
}

pub open spec fn last_segment(image: Seq<char>) -> Seq<char> {
    let parts = split_on(image, '/');
    parts[parts.len() - 1]
}

/// The row of a service line with at least six columns; nothing otherwise.
pub open spec fn ps_row(line: Seq<char>) -> Seq<char> {
    let parts = words(line);
    if parts.len() >= 6 {
        "  "@ + parts[0] + " ("@ + last_segment(parts[1]) + ") "@ + ps_status(line) + ps_port(line)
            + "\n"@
    } else {
        seq![]
    }
}

/// The service lines: those after the header that are not blank.
pub open spec fn service_lines(lines: Seq<Seq<char>>) -> Seq<Seq<char>>
    decreases lines.len(),
{
    if lines.len() <= 1 {
        seq![]
    } else {
        let s = service_lines(lines.drop_last());
        if trim(lines.last()).len() > 0 {
            s.push(lines.last())
        } else {
            s
        }
    }
}

pub open spec fn ps_rows(services: Seq<Seq<char>>) -> Seq<char>
    decreases services.len(),
{
    if services.len() == 0 {
        seq![]
    } else {
        ps_rows(services.drop_last()) + ps_row(services.last())
    }
}

/// Most services listed.
pub const MAX_COMPOSE_SERVICES: usize = 20;

/// The compose services summary.
pub open spec fn compose_ps_spec(raw: Seq<char>) -> Seq<char> {
    let services = service_lines(lines_of(raw));
    let n = services.len();
    if n == 0 {
        "\u{1F433} 0 compose services"@
    } else {
        trim_end(
            "\u{1F433} "@ + decimal(n) + " compose services:\n"@ + ps_rows(
                services.take(if n < 20 {
                    n as int
                } else {
                    20
                }),
            ) + (if n > 20 {
                "  ... +"@ + decimal((n - 20) as nat) + " more\n"@
            } else {
                seq![]
            }),
        )
    }
}

fn status_from_exec(line: &Vec<char>, idx: usize) -> (r: Vec<char>)
    requires
        idx <= line@.len(),
    ensures
        r@ == status_from(line@, idx as int),
{
    let rest = slice_chars(line, idx, line.len());
    assert(rest@ =~= line@.skip(idx as int));
    let sp = chars_of("   ");
    let end = match find_chars(&rest, &sp) {
        Some(e) => {
            proof {
                crate::text::lemma_find_from(rest@, sp@, 0);
            }
            e
        },
        None => rest.len(),
    };
    let head = slice_chars(&rest, 0, end);
    assert(head@ =~= rest@.take(end as int));
    trim_chars(&head)
}

fn ps_row_exec(line: &Vec<char>) -> (r: Vec<char>)
    ensures
        r@ == ps_row(line@),
{
    let parts = split_whitespace_chars(line);
    let mut out: Vec<char> = Vec::new();
    if parts.len() < 6 {
        return out;
    }
    assert(parts@[0]@ == words(line@)[0] && parts@[1]@ == words(line@)[1]);
    append_str(&mut out, "  ");
    append_chars(&mut out, &parts[0]);
    append_str(&mut out, " (");
    let segs = split_on_char(&parts[1], '/');
    proof {
        crate::text::lemma_split_on_len(parts@[1]@, '/');
    }
    append_chars(&mut out, &segs[segs.len() - 1]);
    append_str(&mut out, ") ");
    let up = chars_of("Up");
    let exited = chars_of("Exited");
    let status = match find_chars(line, &up) {
        Some(i) => {
            proof {
                crate::text::lemma_find_from(line@, up@, 0);
            }
            status_from_exec(line, i)
        },
        None => match find_chars(line, &exited) {
            Some(i) => {
                proof {
                    crate::text::lemma_find_from(line@, exited@, 0);
                }
                status_from_exec(line, i)
            },
            None => {
                let mut u: Vec<char> = Vec::new();
                append_str(&mut u, "unknown");
                u
            },
        },
    };
    append_chars(&mut out, &status);
    let marker = chars_of("0.0.0.0:");
    proof {
        crate::text::lemma_rfind_before(line@, marker@, (line@.len() + 1) as int);
    }
    match crate::text::rfind_chars(line, &marker) {
        Some(ci) => {
            let head = slice_chars(line, 0, ci);
            assert(head@ =~= line@.take(ci as int));
            let b = byte_len_min(&head, line.len());
            proof {
                crate::text::lemma_byte_len_bounds(head@);
            }
            let port_text = slice_chars(line, b, line.len());
            assert(port_text@ =~= line@.skip(b as int));
            let trimmed = trim_chars(&port_text);
            let pt = string_of(&trimmed);
            let compact = compact_ports(pt.as_str());
            append_str(&mut out, " [");
            let cc = chars_of(compact.as_str());
            append_chars(&mut out, &cc);
            append_str(&mut out, "]");
        },
        None => {},
    }
    append_str(&mut out, "\n");
    assert(out@ =~= ps_row(line@));
    out
}

/// Condenses `docker compose ps` output to one row per service: name, short
/// image, status and host ports, at most twenty rows.
pub fn format_compose_ps(raw: &str) -> (r: String)
    ensures
        r@ == compose_ps_spec(raw@),
{
    let text = chars_of(raw);
    let lines = split_lines(&text);
    let ghost lv = lines_of(raw@);
    assert(views(lines@) =~= lv);
    let mut services: Vec<Vec<char>> = Vec::new();
    let mut j: usize = 1;
    if lines.len() <= 1 {
        let mut out: Vec<char> = Vec::new();
        append_str(&mut out, "\u{1F433} 0 compose services");
        return string_of(&out);
    }
    assert(service_lines(lv.take(1)) =~= Seq::<Seq<char>>::empty());
    while j < lines.len()
        invariant
            1 <= j <= lines@.len(),
            lv == views(lines@),
            views(services@) == service_lines(lv.take(j as int)),
        decreases lines.len() - j,
    {
        assert(lv.take(j + 1).drop_last() =~= lv.take(j as int));
        assert(lines@[j as int]@ == lv[j as int]);
        let t = trim_chars(&lines[j]);
        if t.len() > 0 {
            let ghost before = services@;
            let l = copy_chars(&lines[j]);
            services.push(l);
            assert(views(services@) =~= views(before).push(l@));
        }
        j += 1;
    }
    assert(lv.take(lines@.len() as int) =~= lv);
    let ghost sv = service_lines(lv);
    let n = services.len();
    let mut out: Vec<char> = Vec::new();
    if n == 0 {
        append_str(&mut out, "\u{1F433} 0 compose services");
        return string_of(&out);
    }
    append_str(&mut out, "\u{1F433} ");
    let d = decimal_chars(n);
    append_chars(&mut out, &d);
    append_str(&mut out, " compose services:\n");
    let ghost head = out@;
    let shown: usize = if n < MAX_COMPOSE_SERVICES {
        n
    } else {
        MAX_COMPOSE_SERVICES
    };
    let mut k: usize = 0;
    assert(sv.take(0) =~= Seq::<Seq<char>>::empty());
    while k < shown
        invariant
            k <= shown <= n == services@.len(),
            views(services@) == sv,
            out@ == head + ps_rows(sv.take(k as int)),
        decreases shown - k,
    {
        assert(sv.take(k + 1).drop_last() =~= sv.take(k as int));
        assert(services@[k as int]@ == sv[k as int]);
        let row = ps_row_exec(&services[k]);
        append_chars(&mut out, &row);
        k += 1;
    }
    if n > MAX_COMPOSE_SERVICES {
        append_str(&mut out, "  ... +");
        let d = decimal_chars(n - MAX_COMPOSE_SERVICES);
        append_chars(&mut out, &d);
        append_str(&mut out, " more\n");
    }
    assert(out@ =~= "\u{1F433} "@ + decimal(n as nat) + " compose services:\n"@ + ps_rows(
        sv.take(shown as int),
    ) + (if n > 20 {
        "  ... +"@ + decimal((n - 20) as nat) + " more\n"@
    } else {
        seq![]
    }));
    let r = trim_end_chars(&out);
    string_of(&r)
}

} // verus!
