//! The driver's configuration: scalars in lines of the form `key: value`.

use crate::decoder::DecoderConfig;
use crate::text::{
    characters, find_char, first_at, is_space, leading_space_is_taken_off, skip_space,
    skip_space_back, stands_at, trailing_space_is_taken_off, trim, trim_end, trim_start,
    trimmed_end, trimmed_start, white_space_by_number, Scalar,
};
use vstd::prelude::*;
use vstd::string::*;

verus! {

/// What a line says of `key`: what stands behind the key and its colon, up to
/// a comment, without white space around it. `None` where the line is not
/// about `key`, or says nothing.
pub open spec fn line_value(line: Seq<char>, key: Seq<char>) -> Option<Seq<char>> {
    let t = trim_start(line);
    let prefix = key.push(':');
    if prefix.is_prefix_of(t) {
        let rest = t.skip(prefix.len() as int);
        let value = trim(rest.take(first_at(rest, '#', 0)));
        if value.len() > 0 {
            Some(value)
        } else {
            None
        }
    } else {
        None
    }
}

/// What the first line of `text`, from `from` on, that says something of
/// `key` says.
pub open spec fn scalar_from(text: Seq<char>, key: Seq<char>, from: int) -> Option<Seq<char>>
    decreases text.len() - from,
    when 0 <= from <= text.len()
    via scalar_from_ends
{
    let end = first_at(text, '\n', from);
    match line_value(text.subrange(from, end), key) {
        Some(v) => Some(v),
        None => if end < text.len() {
            scalar_from(text, key, end + 1)
        } else {
            None
        },
    }
}

#[via_fn]
proof fn scalar_from_ends(text: Seq<char>, key: Seq<char>, from: int) {
    first_at_bounds(text, '\n', from);
}

/// What `text` says of `key`.
pub open spec fn scalar_in(text: Seq<char>, key: Seq<char>) -> Option<Seq<char>> {
    scalar_from(text, key, 0)
}

/// What `text` says of `key`, or else `default`.
pub open spec fn scalar_text(text: Seq<char>, key: Seq<char>, default: Seq<char>) -> Seq<char> {
    match scalar_in(text, key) {
        Some(v) => v,
        None => default,
    }
}

/// The value that `text` gives `key`, or else `default`.
pub open spec fn scalar_value<T: Scalar>(text: Seq<char>, key: Seq<char>, default: T) -> T {
    match scalar_in(text, key) {
        Some(v) => match T::reading(v) {
            Some(x) => x,
            None => default,
        },
        None => default,
    }
}

/// Where a character is first found.
pub proof fn first_at_bounds(s: Seq<char>, c: char, from: int)
    requires
        0 <= from <= s.len(),
    ensures
        from <= first_at(s, c, from) <= s.len(),
        forall|k: int| from <= k < first_at(s, c, from) ==> s[k] != c,
        first_at(s, c, from) < s.len() ==> s[first_at(s, c, from)] == c,
    decreases s.len() - from,
{
    if from < s.len() && s[from] != c {
        first_at_bounds(s, c, from + 1);
    }
}

/// A character is first found where it stands and nothing before it is equal.
proof fn first_at_is(s: Seq<char>, c: char, from: int, at: int)
    requires
        0 <= from <= at <= s.len(),
        forall|k: int| from <= k < at ==> s[k] != c,
        at < s.len() ==> s[at] == c,
    ensures
        first_at(s, c, from) == at,
    decreases at - from,
{
    if from < at {
        first_at_is(s, c, from + 1, at);
    }
}

/// What the line of `chars` from `from` to `end` says of a key, whose name
/// and colon are `prefix`: where that begins and ends.
fn find_value(chars: &Vec<char>, prefix: &Vec<char>, from: usize, end: usize) -> (r: Option<
    (usize, usize),
>)
    requires
        from <= end <= chars@.len(),
        prefix@.len() > 0,
        prefix@.last() == ':',
    ensures
        match line_value(chars@.subrange(from as int, end as int), prefix@.drop_last()) {
            None => r is None,
            Some(v) => {
                &&& r matches Some((a, b))
                &&& a <= b <= chars@.len()
                &&& chars@.subrange(a as int, b as int) == v
            },
        },
{
    let ghost line = chars@.subrange(from as int, end as int);
    assert(prefix@.drop_last().push(':') =~= prefix@);
    let begin: usize = skip_space(chars, from, end);
    let ghost t = chars@.subrange(begin as int, end as int);
    if !stands_at(chars, begin, end, prefix) {
        return None;
    }
    assert(prefix@.len() <= t.len());
    let rest_at: usize = begin + prefix.len();
    let ghost rest = t.skip(prefix@.len() as int);
    assert(rest =~= chars@.subrange(rest_at as int, end as int));
    let mut cut: usize = find_char(chars, '#', rest_at);
    if cut > end {
        cut = end;
    }
    proof {
        assert forall|k: int| 0 <= k < cut - rest_at implies rest[k] != '#' by {
            assert(rest[k] == chars@[rest_at + k]);
        }
        if cut < end {
            assert(rest[cut - rest_at] == chars@[cut as int]);
        }
        first_at_is(rest, '#', 0, cut - rest_at);
        assert(rest.take(cut - rest_at) =~= chars@.subrange(rest_at as int, cut as int));
    }
    let a: usize = skip_space(chars, rest_at, cut);
    let b: usize = skip_space_back(chars, a, cut);
    assert(chars@.subrange(a as int, b as int) == trim(rest.take(cut - rest_at)));
    if a == b {
        None
    } else {
        Some((a, b))
    }
}

/// What the first line of `text` that says something of `key` says, without a
/// comment and without white space around it.
pub fn find_scalar(text: &str, key: &str) -> (r: Option<String>)
    ensures
        match scalar_in(text@, key@) {
            None => r is None,
            Some(v) => r matches Some(s) && s@ == v,
        },
{
    let chars = characters(text);
    let mut prefix = characters(key);
    prefix.push(':');
    assert(prefix@.drop_last() =~= key@);
    let mut from: usize = 0;
    loop
        invariant
            from <= chars@.len(),
            chars@ == text@,
            prefix@ == key@.push(':'),
            prefix@.drop_last() == key@,
            scalar_in(text@, key@) == scalar_from(text@, key@, from as int),
        decreases chars@.len() - from,
    {
        let end: usize = find_char(&chars, '\n', from);
        match find_value(&chars, &prefix, from, end) {
            Some((a, b)) => {
                return Some(text.substring_char(a, b).to_owned());
            },
            None => {
                if end == chars.len() {
                    return None;
                }
                from = end + 1;
            },
        }
    }
}

/// The value that `text` gives `key`, or `default` where it gives none or one
/// that cannot be read.
pub fn scalar_or<T: Scalar>(text: &str, key: &str, default: T) -> (r: T)
    ensures
        r == scalar_value(text@, key@, default),
{
    match find_scalar(text, key) {
        Some(v) => match T::read(v.as_str()) {
            Some(x) => x,
            None => default,
        },
        None => default,
    }
}

/// What `text` says of `key`, or `default`.
fn text_or(text: &str, key: &str, default: &str) -> (r: String)
    ensures
        r@ == scalar_text(text@, key@, default@),
{
    match find_scalar(text, key) {
        Some(v) => v,
        None => default.to_owned(),
    }
}

/// Whether `s` is what `v` says.
pub open spec fn same_text(s: Option<String>, v: Option<Seq<char>>) -> bool {
    match v {
        None => s is None,
        Some(t) => s matches Some(u) && u@ == t,
    }
}

/// The driver's configuration. Numbers with fractions are kept as they are
/// written, `None` where they are not.
pub struct DriverConfig {
    pub host_address: String,
    pub lidar_type: String,
    pub msop_port: u16,
    pub difop_port: u16,
    pub user_layer_bytes: u16,
    pub tail_layer_bytes: u16,
    /// Metres.
    pub min_distance: Option<String>,
    /// Metres.
    pub max_distance: Option<String>,
    pub use_lidar_clock: bool,
    pub dense_points: bool,
    pub ts_first_point: bool,
    /// Degrees.
    pub start_angle: Option<String>,
    /// Degrees.
    pub end_angle: Option<String>,
    pub wait_for_difop: bool,
    pub frame_id: String,
    /// A capture to play back in place of the live sensor.
    pub pcap_path: Option<String>,
    /// Speed of playback.
    pub pcap_rate: Option<String>,
    /// Whether playback begins again at the end.
    pub pcap_repeat: bool,
}

impl DriverConfig {
    /// Reads a configuration. What it does not say has a default.
    pub fn parse(text: &str) -> (c: Self)
        ensures
            c.host_address@ == scalar_text(text@, "host_address"@, "0.0.0.0"@),
            c.lidar_type@ == scalar_text(text@, "lidar_type"@, "RSHELIOS"@),
            c.msop_port == scalar_value(text@, "msop_port"@, 6699u16),
            c.difop_port == scalar_value(text@, "difop_port"@, 7788u16),
            c.user_layer_bytes == scalar_value(text@, "user_layer_bytes"@, 0u16),
            c.tail_layer_bytes == scalar_value(text@, "tail_layer_bytes"@, 0u16),
            same_text(c.min_distance, scalar_in(text@, "min_distance"@)),
            same_text(c.max_distance, scalar_in(text@, "max_distance"@)),
            c.use_lidar_clock == scalar_value(text@, "use_lidar_clock"@, false),
            c.dense_points == scalar_value(text@, "dense_points"@, false),
            c.ts_first_point == scalar_value(text@, "ts_first_point"@, false),
            same_text(c.start_angle, scalar_in(text@, "start_angle"@)),
            same_text(c.end_angle, scalar_in(text@, "end_angle"@)),
            c.wait_for_difop,
            c.frame_id@ == scalar_text(text@, "ros_frame_id"@, "rslidar"@),
            same_text(c.pcap_path, scalar_in(text@, "pcap_path"@)),
            same_text(c.pcap_rate, scalar_in(text@, "pcap_rate"@)),
            c.pcap_repeat == scalar_value(text@, "pcap_repeat"@, false),
    {
        DriverConfig {
            host_address: text_or(text, "host_address", "0.0.0.0"),
            lidar_type: text_or(text, "lidar_type", "RSHELIOS"),
            msop_port: scalar_or(text, "msop_port", 6699u16),
            difop_port: scalar_or(text, "difop_port", 7788u16),
            user_layer_bytes: scalar_or(text, "user_layer_bytes", 0u16),
            tail_layer_bytes: scalar_or(text, "tail_layer_bytes", 0u16),
            min_distance: find_scalar(text, "min_distance"),
            max_distance: find_scalar(text, "max_distance"),
            use_lidar_clock: scalar_or(text, "use_lidar_clock", false),
            dense_points: scalar_or(text, "dense_points", false),
            ts_first_point: scalar_or(text, "ts_first_point", false),
            start_angle: find_scalar(text, "start_angle"),
            end_angle: find_scalar(text, "end_angle"),
            wait_for_difop: true,
            frame_id: text_or(text, "ros_frame_id", "rslidar"),
            pcap_path: find_scalar(text, "pcap_path"),
            pcap_rate: find_scalar(text, "pcap_rate"),
            pcap_repeat: scalar_or(text, "pcap_repeat", false),
        }
    }

    /// What the decoder is told, given the limits as numbers: distances as
    /// single-precision bit patterns, angles in hundredths of a degree.
    pub fn decoder_config(
        &self,
        min_distance: u32,
        max_distance: u32,
        start_angle: i32,
        end_angle: i32,
    ) -> (c: DecoderConfig)
        ensures
            c == (DecoderConfig {
                user_layer_bytes: self.user_layer_bytes,
                tail_layer_bytes: self.tail_layer_bytes,
                wait_for_difop: self.wait_for_difop,
                use_lidar_clock: self.use_lidar_clock,
                dense_points: self.dense_points,
                ts_first_point: self.ts_first_point,
                min_distance,
                max_distance,
                start_angle,
                end_angle,
            }),
    {
        DecoderConfig {
            user_layer_bytes: self.user_layer_bytes,
            tail_layer_bytes: self.tail_layer_bytes,
            wait_for_difop: self.wait_for_difop,
            use_lidar_clock: self.use_lidar_clock,
            dense_points: self.dense_points,
            ts_first_point: self.ts_first_point,
            min_distance,
            max_distance,
            start_angle,
            end_angle,
        }
    }

    /// Whether the sensor is the one whose packets are understood.
    pub fn is_known_lidar(&self) -> (r: bool)
        ensures
            r == (self.lidar_type@ == "RSHELIOS"@),
    {
        self.lidar_type == "RSHELIOS".to_owned()
    }
}

/// A relative path behind a directory.
pub open spec fn joined_path(dir: Seq<char>, rel: Seq<char>) -> Seq<char> {
    if dir.len() == 0 || dir.last() == '/' {
        dir + rel
    } else {
        dir.push('/') + rel
    }
}

/// Where the configuration is, below the directory of the sources.
pub fn default_config_path(dir: &str) -> (r: String)
    ensures
        r@ == joined_path(dir@, "src/rslidar/config/config.yaml"@),
{
    let n: usize = dir.unicode_len();
    let mut path = dir.to_owned();
    if n > 0 && dir.get_char(n - 1) != '/' {
        path.append("/");
        proof {
            reveal_strlit("/");
        }
        assert(path@ =~= dir@.push('/'));
    }
    path.append("src/rslidar/config/config.yaml");
    path
}

/// A value is never empty, never holds the beginning of a comment or of
/// another line, and has no white space around it.
pub proof fn value_is_clean(line: Seq<char>, key: Seq<char>)
    ensures
        line_value(line, key) matches Some(v) ==> {
            &&& v.len() > 0
            &&& !crate::text::is_space(v[0])
            &&& !crate::text::is_space(v.last())
            &&& forall|k: int| 0 <= k < v.len() ==> #[trigger] v[k] != '#'
            &&& forall|k: int| 0 <= k < v.len() ==> line.contains(#[trigger] v[k])
        },
{
    let t = trim_start(line);
    let prefix = key.push(':');
    if prefix.is_prefix_of(t) {
        let rest = t.skip(prefix.len() as int);
        first_at_bounds(rest, '#', 0);
        let cut = rest.take(first_at(rest, '#', 0));
        let a = trim_start(cut);
        let v = trim_end(a);
        trimmed_start(line);
        trimmed_start(cut);
        trimmed_end(a);
        assert forall|k: int| 0 <= k < v.len() implies #[trigger] v[k] != '#' && line.contains(
            v[k],
        ) by {
            let j = cut.len() - a.len() + k;
            assert(v[k] == a[k] && a[k] == cut[j] && cut[j] == rest[j]);
            let m = line.len() - t.len() + prefix.len() + j;
            assert(rest[j] == t[prefix.len() + j] && t[prefix.len() + j] == line[m]);
        }
        if v.len() > 0 {
            assert(v[0] == a[0]);
        }
    }
}

/// What two texts, one below the other, say of a key is what the upper one
/// says of it, or else what the lower one says.
pub proof fn first_line_wins(upper: Seq<char>, lower: Seq<char>, key: Seq<char>)
    ensures
        scalar_in(upper.push('\n') + lower, key) == (match scalar_in(upper, key) {
            Some(v) => Some(v),
            None => scalar_in(lower, key),
        }),
{
    upper_first(upper, lower, key, 0);
}

proof fn upper_first(upper: Seq<char>, lower: Seq<char>, key: Seq<char>, from: int)
    requires
        0 <= from <= upper.len(),
    ensures
        scalar_from(upper.push('\n') + lower, key, from) == (match scalar_from(upper, key, from) {
            Some(v) => Some(v),
            None => scalar_in(lower, key),
        }),
    decreases upper.len() - from,
{
    let text = upper.push('\n') + lower;
    let end = first_at(upper, '\n', from);
    first_at_bounds(upper, '\n', from);
    assert(forall|k: int| 0 <= k < upper.len() ==> text[k] == upper[k]);
    first_at_is(text, '\n', from, end);
    assert(text.subrange(from, end) =~= upper.subrange(from, end));
    if line_value(upper.subrange(from, end), key) is None {
        if end < upper.len() {
            upper_first(upper, lower, key, end + 1);
        } else {
            lower_from(upper, lower, key, 0);
        }
    }
}

proof fn lower_from(upper: Seq<char>, lower: Seq<char>, key: Seq<char>, from: int)
    requires
        0 <= from <= lower.len(),
    ensures
        scalar_from(upper.push('\n') + lower, key, upper.len() + 1 + from) == scalar_from(
            lower,
            key,
            from,
        ),
    decreases lower.len() - from,
{
    let text = upper.push('\n') + lower;
    let base = upper.len() + 1;
    let end = first_at(lower, '\n', from);
    first_at_bounds(lower, '\n', from);
    assert(forall|k: int| 0 <= k < lower.len() ==> text[base + k] == lower[k]);
    assert forall|k: int| base + from <= k < base + end implies text[k] != '\n' by {
        assert(text[k] == lower[k - base]);
    }
    first_at_is(text, '\n', base + from, base + end);
    assert(text.subrange(base + from, base + end) =~= lower.subrange(from, end));
    if line_value(lower.subrange(from, end), key) is None && end < lower.len() {
        lower_from(upper, lower, key, end + 1);
    }
}

/// A line that consists of white space, a key with a colon, white space, a
/// value and white space again, and then of nothing or a comment, says that
/// value of the key.
pub proof fn a_line_says_its_value(
    lead: Seq<char>,
    key: Seq<char>,
    gap: Seq<char>,
    value: Seq<char>,
    tail: Seq<char>,
    comment: Seq<char>,
)
    requires
        forall|k: int| 0 <= k < lead.len() ==> is_space(#[trigger] lead[k]),
        forall|k: int| 0 <= k < gap.len() ==> is_space(#[trigger] gap[k]),
        forall|k: int| 0 <= k < tail.len() ==> is_space(#[trigger] tail[k]),
        key.len() > 0,
        !is_space(key[0]),
        value.len() > 0,
        !is_space(value[0]),
        !is_space(value.last()),
        forall|k: int| 0 <= k < value.len() ==> #[trigger] value[k] != '#',
        comment.len() > 0 ==> comment[0] == '#',
    ensures
        line_value(lead + key + seq![':'] + gap + value + tail + comment, key) == Some(value),
{
    let line = lead + key + seq![':'] + gap + value + tail + comment;
    let prefix = key.push(':');
    let said = gap + value + tail;
    let rest = said + comment;
    let t = prefix + rest;
    assert(line =~= lead + t);
    assert(t[0] == key[0]);
    leading_space_is_taken_off(lead, t);
    assert(prefix.is_prefix_of(t)) by {
        assert(prefix =~= t.subrange(0, prefix.len() as int));
    }
    assert(t.skip(prefix.len() as int) =~= rest);
    assert forall|k: int| 0 <= k < said.len() implies rest[k] != '#' by {
        if k < gap.len() {
            assert(rest[k] == gap[k]);
            white_space_by_number(gap[k]);
        } else if k < gap.len() + value.len() {
            assert(rest[k] == value[k - gap.len()]);
        } else {
            assert(rest[k] == tail[k - gap.len() - value.len()]);
            white_space_by_number(tail[k - gap.len() - value.len()]);
        }
    }
    if comment.len() > 0 {
        assert(rest[said.len() as int] == comment[0]);
    }
    first_at_is(rest, '#', 0, said.len() as int);
    assert(rest.take(said.len() as int) =~= said);
    assert(said =~= gap + (value + tail));
    assert((value + tail)[0] == value[0]);
    leading_space_is_taken_off(gap, value + tail);
    trailing_space_is_taken_off(value, tail);
}

/// A line says something of a key only where the key, with a colon right
/// behind it, is what it begins with, apart from white space.
pub proof fn only_lines_of_a_key_speak_of_it(line: Seq<char>, key: Seq<char>) -> (n: int)
    requires
        line_value(line, key) is Some,
    ensures
        0 <= n,
        n + key.len() < line.len(),
        line.subrange(n, n + key.len()) == key,
        line[n + key.len()] == ':',
        forall|k: int| 0 <= k < n ==> is_space(#[trigger] line[k]),
{
    let t = trim_start(line);
    let prefix = key.push(':');
    trimmed_start(line);
    let n = line.len() - t.len();
    only_space_is_taken_off(line);
    assert(t.subrange(0, prefix.len() as int) == prefix);
    assert(line.subrange(n, n + key.len()) =~= key) by {
        assert forall|k: int| 0 <= k < key.len() implies line[n + k] == key[k] by {
            assert(t[k] == line[n + k]);
            assert(prefix[k] == t.subrange(0, prefix.len() as int)[k]);
        }
    }
    assert(t[key.len() as int] == line[n + key.len()]);
    assert(prefix[key.len() as int] == t.subrange(0, prefix.len() as int)[key.len() as int]);
    n
}

proof fn only_space_is_taken_off(s: Seq<char>)
    ensures
        forall|k: int| 0 <= k < s.len() - trim_start(s).len() ==> is_space(#[trigger] s[k]),
    decreases s.len(),
{
    if s.len() > 0 && is_space(s[0]) {
        only_space_is_taken_off(s.skip(1));
        assert forall|k: int| 0 <= k < s.len() - trim_start(s).len() implies is_space(
            #[trigger] s[k],
        ) by {
            if k > 0 {
                assert(s.skip(1)[k - 1] == s[k]);
            }
        }
    }
}

/// A text of one line says what the line says. With the law of what two texts
/// say, one below the other, that is what any text says.
pub proof fn one_line_is_a_text(line: Seq<char>, key: Seq<char>)
    requires
        forall|k: int| 0 <= k < line.len() ==> #[trigger] line[k] != '\n',
    ensures
        scalar_in(line, key) == line_value(line, key),
{
    first_at_is(line, '\n', 0, line.len() as int);
    assert(line.subrange(0, line.len() as int) =~= line);
}

/// A value is what the text says of its key where that can be read, and the
/// default where it says nothing or what cannot be read.
pub proof fn values_are_read_or_default<T: Scalar>(text: Seq<char>, key: Seq<char>, default: T)
    ensures
        scalar_in(text, key) is None ==> scalar_value(text, key, default) == default,
        scalar_in(text, key) matches Some(v) ==> {
            &&& T::reading(v) is None ==> scalar_value(text, key, default) == default
            &&& T::reading(v) matches Some(x) ==> scalar_value(text, key, default) == x
        },
        forall|d: Seq<char>| #[trigger]
            scalar_text(text, key, d) == (match scalar_in(text, key) {
                Some(v) => v,
                None => d,
            }),
{
}

/// A joined path begins with the directory and ends with the relative path,
/// with one slash between them that the directory may have brought.
pub proof fn paths_are_joined_by_a_slash(dir: Seq<char>, rel: Seq<char>)
    ensures
        dir.len() == 0 ==> joined_path(dir, rel) == rel,
        dir.len() > 0 && dir.last() == '/' ==> joined_path(dir, rel) == dir + rel,
        dir.len() > 0 && dir.last() != '/' ==> joined_path(dir, rel) == dir + seq!['/'] + rel,
{
    if dir.len() == 0 {
        assert(dir + rel =~= rel);
    } else if dir.last() != '/' {
        assert(dir.push('/') + rel =~= dir + seq!['/'] + rel);
    }
}

/// A text is kept as it was said, and is missing where nothing was said.
pub proof fn texts_are_kept_as_said(s: Option<String>, v: Option<Seq<char>>)
    requires
        same_text(s, v),
    ensures
        s is None <==> v is None,
        s matches Some(t) ==> v == Some(t@),
{
}

} // verus!
