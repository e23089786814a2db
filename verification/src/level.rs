//! The level curve: a score in thousandths of a point maps to a level.
//!
//! A level `l` is reached once the score passes the cumulative experience
//! `T(l) = a * (r^l - 1) / (r - 1)` with `a = 100` and `r = 17/16`, which
//! simplifies to `T(l) = 1600 * ((17/16)^l - 1)`. The level of a score is
//! the smallest `l` in `1..=60` whose requirement exceeds the score, minus
//! one; scores at or above every requirement sit at the cap of 60. All
//! comparisons are exact rational arithmetic, cleared of denominators.

use vstd::arithmetic::mul::lemma_mul_inequality;
use vstd::prelude::*;

verus! {

pub open spec fn pow_nat(base: nat, e: nat) -> nat
    decreases e,
{
    if e == 0 {
        1
    } else {
        base * pow_nat(base, (e - 1) as nat)
    }
}

/// `T(l) > score`, with `T(l) = 1600 * ((17/16)^l - 1)`, multiplied out by
/// the denominator `16^l`.
pub open spec fn level_exceeds(l: nat, score: nat) -> bool {
    1600 * (pow_nat(17, l) - pow_nat(16, l)) > score * pow_nat(16, l)
}

pub open spec fn level_from(score: nat, l: nat) -> nat
    decreases 61 - l,
{
    if l > 60 {
        60
    } else if level_exceeds(l, score) {
        (l - 1) as nat
    } else {
        level_from(score, l + 1)
    }
}

/// The level of a score: smallest `l` in `1..=60` with `T(l) > score`,
/// minus one; 60 where no requirement exceeds the score.
pub open spec fn spec_points_to_level(score: nat) -> nat {
    level_from(score, 1)
}

/// The largest score that level requirement `l` still exceeds, for
/// `l` in `1..=60`: `score <= level_bound(l)` iff `T(l) > score`.
pub open spec fn spec_level_bounds() -> Seq<u64> {
    seq![
        99u64, 206, 319, 439, 566, 701, 845, 998, 1161, 1333, 1517, 1711, 1918, 2138, 2372,
        2620, 2884, 3164, 3462, 3778, 4115, 4472, 4851, 5255, 5683, 6138, 6622, 7136, 7682,
        8262, 8878, 9533, 10229, 10969, 11754, 12589, 13476, 14418, 15419, 16483, 17613,
        18814, 20090, 21445, 22886, 24416, 26042, 27770, 29605, 31556, 33628, 35830, 38169,
        40655, 43296, 46102, 49083, 52251, 55617, 59193,
    ]
}

pub open spec fn bound_ok(l: int) -> bool {
    &&& 1600 * (pow_nat(17, l as nat) - pow_nat(16, l as nat)) > spec_level_bounds()[l - 1]
        * pow_nat(16, l as nat)
    &&& 1600 * (pow_nat(17, l as nat) - pow_nat(16, l as nat)) <= (spec_level_bounds()[l - 1]
        + 1) * pow_nat(16, l as nat)
}

proof fn lemma_bounds_ok()
    ensures
        forall|l: int| 1 <= l <= 60 ==> #[trigger] bound_ok(l),
{
    assert(pow_nat(17, 0) == 1);
    assert(pow_nat(16, 0) == 1);
    assert(pow_nat(17, 1) == 17);
    assert(pow_nat(16, 1) == 16);
    assert(spec_level_bounds()[1 - 1] == 99);
    assert(bound_ok(1)) by {
        assert(99 * 16 == 1584) by (nonlinear_arith);
        assert(100 * 16 == 1600) by (nonlinear_arith);
    }
    assert(pow_nat(17, 2) == 289);
    assert(pow_nat(16, 2) == 256);
    assert(spec_level_bounds()[2 - 1] == 206);
    assert(bound_ok(2)) by {
        assert(206 * 256 == 52736) by (nonlinear_arith);
        assert(207 * 256 == 52992) by (nonlinear_arith);
    }
    assert(pow_nat(17, 3) == 4913);
    assert(pow_nat(16, 3) == 4096);
    assert(spec_level_bounds()[3 - 1] == 319);
    assert(bound_ok(3)) by {
        assert(319 * 4096 == 1306624) by (nonlinear_arith);
        assert(320 * 4096 == 1310720) by (nonlinear_arith);
    }
    assert(pow_nat(17, 4) == 83521);
    assert(pow_nat(16, 4) == 65536);
    assert(spec_level_bounds()[4 - 1] == 439);
    assert(bound_ok(4)) by {
        assert(439 * 65536 == 28770304) by (nonlinear_arith);
        assert(440 * 65536 == 28835840) by (nonlinear_arith);
    }
    assert(pow_nat(17, 5) == 1419857);
    assert(pow_nat(16, 5) == 1048576);
    assert(spec_level_bounds()[5 - 1] == 566);
    assert(bound_ok(5)) by {
        assert(566 * 1048576 == 593494016) by (nonlinear_arith);
        assert(567 * 1048576 == 594542592) by (nonlinear_arith);
    }
    assert(pow_nat(17, 6) == 24137569);
    assert(pow_nat(16, 6) == 16777216);
    assert(spec_level_bounds()[6 - 1] == 701);
    assert(bound_ok(6)) by {
        assert(701 * 16777216 == 11760828416) by (nonlinear_arith);
        assert(702 * 16777216 == 11777605632) by (nonlinear_arith);
    }
    assert(pow_nat(17, 7) == 410338673);
    assert(pow_nat(16, 7) == 268435456);
    assert(spec_level_bounds()[7 - 1] == 845);
    assert(bound_ok(7)) by {
        assert(845 * 268435456 == 226827960320) by (nonlinear_arith);
        assert(846 * 268435456 == 227096395776) by (nonlinear_arith);
    }
    assert(pow_nat(17, 8) == 6975757441);
    assert(pow_nat(16, 8) == 4294967296);
    assert(spec_level_bounds()[8 - 1] == 998);
    assert(bound_ok(8)) by {
        assert(998 * 4294967296 == 4286377361408) by (nonlinear_arith);
        assert(999 * 4294967296 == 4290672328704) by (nonlinear_arith);
    }
    assert(pow_nat(17, 9) == 118587876497);
    assert(pow_nat(16, 9) == 68719476736);
    assert(spec_level_bounds()[9 - 1] == 1161);
    assert(bound_ok(9)) by {
        assert(1161 * 68719476736 == 79783312490496) by (nonlinear_arith);
        assert(1162 * 68719476736 == 79852031967232) by (nonlinear_arith);
    }
    assert(pow_nat(17, 10) == 2015993900449);
    assert(pow_nat(16, 10) == 1099511627776);
    assert(spec_level_bounds()[10 - 1] == 1333);
    assert(bound_ok(10)) by {
        assert(1333 * 1099511627776 == 1465648999825408) by (nonlinear_arith);
        assert(1334 * 1099511627776 == 1466748511453184) by (nonlinear_arith);
    }
    assert(pow_nat(17, 11) == 34271896307633);
    assert(pow_nat(16, 11) == 17592186044416);
    assert(spec_level_bounds()[11 - 1] == 1517);
    assert(bound_ok(11)) by {
        assert(1517 * 17592186044416 == 26687346229379072) by (nonlinear_arith);
        assert(1518 * 17592186044416 == 26704938415423488) by (nonlinear_arith);
    }
    assert(pow_nat(17, 12) == 582622237229761);
    assert(pow_nat(16, 12) == 281474976710656);
    assert(spec_level_bounds()[12 - 1] == 1711);
    assert(bound_ok(12)) by {
        assert(1711 * 281474976710656 == 481603685151932416) by (nonlinear_arith);
        assert(1712 * 281474976710656 == 481885160128643072) by (nonlinear_arith);
    }
    assert(pow_nat(17, 13) == 9904578032905937);
    assert(pow_nat(16, 13) == 4503599627370496);
    assert(spec_level_bounds()[13 - 1] == 1918);
    assert(bound_ok(13)) by {
        assert(1918 * 4503599627370496 == 8637904085296611328) by (nonlinear_arith);
        assert(1919 * 4503599627370496 == 8642407684923981824) by (nonlinear_arith);
    }
    assert(pow_nat(17, 14) == 168377826559400929);
    assert(pow_nat(16, 14) == 72057594037927936);
    assert(spec_level_bounds()[14 - 1] == 2138);
    assert(bound_ok(14)) by {
        assert(2138 * 72057594037927936 == 154059136053089927168) by (nonlinear_arith);
        assert(2139 * 72057594037927936 == 154131193647127855104) by (nonlinear_arith);
    }
    assert(pow_nat(17, 15) == 2862423051509815793);
    assert(pow_nat(16, 15) == 1152921504606846976);
    assert(spec_level_bounds()[15 - 1] == 2372);
    assert(bound_ok(15)) by {
        assert(2372 * 1152921504606846976 == 2734729808927441027072) by (nonlinear_arith);
        assert(2373 * 1152921504606846976 == 2735882730432047874048) by (nonlinear_arith);
    }
    assert(pow_nat(17, 16) == 48661191875666868481);
    assert(pow_nat(16, 16) == 18446744073709551616);
    assert(spec_level_bounds()[16 - 1] == 2620);
    assert(bound_ok(16)) by {
        assert(2620 * 18446744073709551616 == 48330469473119025233920) by (nonlinear_arith);
        assert(2621 * 18446744073709551616 == 48348916217192734785536) by (nonlinear_arith);
    }
    assert(pow_nat(17, 17) == 827240261886336764177);
    assert(pow_nat(16, 17) == 295147905179352825856);
    assert(spec_level_bounds()[17 - 1] == 2884);
    assert(bound_ok(17)) by {
        assert(2884 * 295147905179352825856 == 851206558537253549768704) by (nonlinear_arith);
        assert(2885 * 295147905179352825856 == 851501706442432902594560) by (nonlinear_arith);
    }
    assert(pow_nat(17, 18) == 14063084452067724991009);
    assert(pow_nat(16, 18) == 4722366482869645213696);
    assert(spec_level_bounds()[18 - 1] == 3164);
    assert(bound_ok(18)) by {
        assert(3164 * 4722366482869645213696 == 14941567551799557456134144) by (nonlinear_arith);
        assert(3165 * 4722366482869645213696 == 14946289918282427101347840) by (nonlinear_arith);
    }
    assert(pow_nat(17, 19) == 239072435685151324847153);
    assert(pow_nat(16, 19) == 75557863725914323419136);
    assert(spec_level_bounds()[19 - 1] == 3462);
    assert(bound_ok(19)) by {
        assert(3462 * 75557863725914323419136 == 261581324219115387677048832) by (nonlinear_arith);
        assert(3463 * 75557863725914323419136 == 261656882082841302000467968) by (nonlinear_arith);
    }
    assert(pow_nat(17, 20) == 4064231406647572522401601);
    assert(pow_nat(16, 20) == 1208925819614629174706176);
    assert(spec_level_bounds()[20 - 1] == 3778);
    assert(bound_ok(20)) by {
        assert(3778 * 1208925819614629174706176 == 4567321746504069022039932928) by (nonlinear_arith);
        assert(3779 * 1208925819614629174706176 == 4568530672323683651214639104) by (nonlinear_arith);
    }
    assert(pow_nat(17, 21) == 69091933913008732880827217);
    assert(pow_nat(16, 21) == 19342813113834066795298816);
    assert(spec_level_bounds()[21 - 1] == 4115);
    assert(bound_ok(21)) by {
        assert(4115 * 19342813113834066795298816 == 79595675963427184862654627840) by (nonlinear_arith);
        assert(4116 * 19342813113834066795298816 == 79615018776541018929449926656) by (nonlinear_arith);
    }
    assert(pow_nat(17, 22) == 1174562876521148458974062689);
    assert(pow_nat(16, 22) == 309485009821345068724781056);
    assert(spec_level_bounds()[22 - 1] == 4472);
    assert(bound_ok(22)) by {
        assert(4472 * 309485009821345068724781056 == 1384016963921055147337220882432) by (nonlinear_arith);
        assert(4473 * 309485009821345068724781056 == 1384326448930876492405945663488) by (nonlinear_arith);
    }
    assert(pow_nat(17, 23) == 19967568900859523802559065713);
    assert(pow_nat(16, 23) == 4951760157141521099596496896);
    assert(spec_level_bounds()[23 - 1] == 4851);
    assert(bound_ok(23)) by {
        assert(4851 * 4951760157141521099596496896 == 24020988522293518854142606442496) by (nonlinear_arith);
        assert(4852 * 4951760157141521099596496896 == 24025940282450660375242202939392) by (nonlinear_arith);
    }
    assert(pow_nat(17, 24) == 339448671314611904643504117121);
    assert(pow_nat(16, 24) == 79228162514264337593543950336);
    assert(spec_level_bounds()[24 - 1] == 5255);
    assert(bound_ok(24)) by {
        assert(5255 * 79228162514264337593543950336 == 416343994012459094054073459015680) by (nonlinear_arith);
        assert(5256 * 79228162514264337593543950336 == 416423222174973358391667002966016) by (nonlinear_arith);
    }
    assert(pow_nat(17, 25) == 5770627412348402378939569991057);
    assert(pow_nat(16, 25) == 1267650600228229401496703205376);
    assert(spec_level_bounds()[25 - 1] == 5683);
    assert(bound_ok(25)) by {
        assert(5683 * 1267650600228229401496703205376 == 7204058361097027688705764316151808) by (nonlinear_arith);
        assert(5684 * 1267650600228229401496703205376 == 7205326011697255918107261019357184) by (nonlinear_arith);
    }
    assert(pow_nat(17, 26) == 98100666009922840441972689847969);
    assert(pow_nat(16, 26) == 20282409603651670423947251286016);
    assert(spec_level_bounds()[26 - 1] == 6138);
    assert(bound_ok(26)) by {
        assert(6138 * 20282409603651670423947251286016 == 124493430147213953062188228393566208) by (nonlinear_arith);
        assert(6139 * 20282409603651670423947251286016 == 124513712556817604732612175644852224) by (nonlinear_arith);
    }
    assert(pow_nat(17, 27) == 1667711322168688287513535727415473);
    assert(pow_nat(16, 27) == 324518553658426726783156020576256);
    assert(spec_level_bounds()[27 - 1] == 6622);
    assert(bound_ok(27)) by {
        assert(6622 * 324518553658426726783156020576256 == 2148961862326101784758059168255967232) by (nonlinear_arith);
        assert(6623 * 324518553658426726783156020576256 == 2149286380879760211484842324276543488) by (nonlinear_arith);
    }
    assert(pow_nat(17, 28) == 28351092476867700887730107366063041);
    assert(pow_nat(16, 28) == 5192296858534827628530496329220096);
    assert(spec_level_bounds()[28 - 1] == 7136);
    assert(bound_ok(28)) by {
        assert(7136 * 5192296858534827628530496329220096 == 37052230382504529957193621805314605056) by (nonlinear_arith);
        assert(7137 * 5192296858534827628530496329220096 == 37057422679363064784822152301643825152) by (nonlinear_arith);
    }
    assert(pow_nat(17, 29) == 481968572106750915091411825223071697);
    assert(pow_nat(16, 29) == 83076749736557242056487941267521536);
    assert(spec_level_bounds()[29 - 1] == 7682);
    assert(bound_ok(29)) by {
        assert(7682 * 83076749736557242056487941267521536 == 638195591476232733477940364817100439552) by (nonlinear_arith);
        assert(7683 * 83076749736557242056487941267521536 == 638278668225969290719996852758367961088) by (nonlinear_arith);
    }
    assert(pow_nat(17, 30) == 8193465725814765556554001028792218849);
    assert(pow_nat(16, 30) == 1329227995784915872903807060280344576);
    assert(spec_level_bounds()[30 - 1] == 8262);
    assert(bound_ok(30)) by {
        assert(8262 * 1329227995784915872903807060280344576 == 10982081701174974941931253932036206886912) by (nonlinear_arith);
        assert(8263 * 1329227995784915872903807060280344576 == 10983410929170759857804157739096487231488) by (nonlinear_arith);
    }
    assert(pow_nat(17, 31) == 139288917338851014461418017489467720433);
    assert(pow_nat(16, 31) == 21267647932558653966460912964485513216);
    assert(spec_level_bounds()[31 - 1] == 8878);
    assert(bound_ok(31)) by {
        assert(8878 * 21267647932558653966460912964485513216 == 188814178345255729914239985298702386331648) by (nonlinear_arith);
        assert(8879 * 21267647932558653966460912964485513216 == 188835445993188288568206446211666871844864) by (nonlinear_arith);
    }
    assert(pow_nat(17, 32) == 2367911594760467245844106297320951247361);
    assert(pow_nat(16, 32) == 340282366920938463463374607431768211456);
    assert(spec_level_bounds()[32 - 1] == 9533);
    assert(bound_ok(32)) by {
        assert(9533 * 340282366920938463463374607431768211456 == 3243911803857306372196350132647046359810048) by (nonlinear_arith);
        assert(9534 * 340282366920938463463374607431768211456 == 3244252086224227310659813507254478128021504) by (nonlinear_arith);
    }
    assert(pow_nat(17, 33) == 40254497110927943179349807054456171205137);
    assert(pow_nat(16, 33) == 5444517870735015415413993718908291383296);
    assert(spec_level_bounds()[33 - 1] == 10229);
    assert(bound_ok(33)) by {
        assert(10229 * 5444517870735015415413993718908291383296 == 55691973299748472684269741750712912559734784) by (nonlinear_arith);
        assert(10230 * 5444517870735015415413993718908291383296 == 55697417817619207699685155744431820851118080) by (nonlinear_arith);
    }
    assert(pow_nat(17, 34) == 684326450885775034048946719925754910487329);
    assert(pow_nat(16, 34) == 87112285931760246646623899502532662132736);
    assert(spec_level_bounds()[34 - 1] == 10969);
    assert(bound_ok(34)) by {
        assert(10969 * 87112285931760246646623899502532662132736 == 955534664385478145466817553643280770933981184) by (nonlinear_arith);
        assert(10970 * 87112285931760246646623899502532662132736 == 955621776671409905713464177542783303596113920) by (nonlinear_arith);
    }
    assert(pow_nat(17, 35) == 11633549665058175578832094238737833478284593);
    assert(pow_nat(16, 35) == 1393796574908163946345982392040522594123776);
    assert(spec_level_bounds()[35 - 1] == 11754);
    assert(bound_ok(35)) by {
        assert(11754 * 1393796574908163946345982392040522594123776 == 16382684941470559025350677036044302571330863104) by (nonlinear_arith);
        assert(11755 * 1393796574908163946345982392040522594123776 == 16384078738045467189297023018436343093924986880) by (nonlinear_arith);
    }
    assert(pow_nat(17, 36) == 197770344305988984840145602058543169130838081);
    assert(pow_nat(16, 36) == 22300745198530623141535718272648361505980416);
    assert(spec_level_bounds()[36 - 1] == 12589);
    assert(bound_ok(36)) by {
        assert(12589 * 22300745198530623141535718272648361505980416 == 280744081304302014728793157334370222998787457024) by (nonlinear_arith);
        assert(12590 * 22300745198530623141535718272648361505980416 == 280766382049500545351934693052642871360293437440) by (nonlinear_arith);
    }
    assert(pow_nat(17, 37) == 3362095853201812742282475234995233875224247377);
    assert(pow_nat(16, 37) == 356811923176489970264571492362373784095686656);
    assert(spec_level_bounds()[37 - 1] == 13476);
    assert(bound_ok(37)) by {
        assert(13476 * 356811923176489970264571492362373784095686656 == 4808397476726378839285365431075349114473473376256) by (nonlinear_arith);
        assert(13477 * 356811923176489970264571492362373784095686656 == 4808754288649555329255630002567711488257569062912) by (nonlinear_arith);
    }
    assert(pow_nat(17, 38) == 57155629504430816618802078994918975878812205409);
    assert(pow_nat(16, 38) == 5708990770823839524233143877797980545530986496);
    assert(spec_level_bounds()[38 - 1] == 14418);
    assert(bound_ok(38)) by {
        assert(14418 * 5708990770823839524233143877797980545530986496 == 82312228933738118260393468430091283505465763299328) by (nonlinear_arith);
        assert(14419 * 5708990770823839524233143877797980545530986496 == 82317937924508942099917701573969081486011294285824) by (nonlinear_arith);
    }
    assert(pow_nat(17, 39) == 971645701575323882519635342913622589939807491953);
    assert(pow_nat(16, 39) == 91343852333181432387730302044767688728495783936);
    assert(spec_level_bounds()[39 - 1] == 15419);
    assert(bound_ok(39)) by {
        assert(15419 * 91343852333181432387730302044767688728495783936 == 1408430859125324505986413527228272992504676492509184) by (nonlinear_arith);
        assert(15420 * 91343852333181432387730302044767688728495783936 == 1408522202977657687418801257530317760193404988293120) by (nonlinear_arith);
    }
    assert(pow_nat(17, 40) == 16517976926780506002833800829531584028976727363201);
    assert(pow_nat(16, 40) == 1461501637330902918203684832716283019655932542976);
    assert(spec_level_bounds()[40 - 1] == 16483);
    assert(bound_ok(40)) by {
        assert(16483 * 1461501637330902918203684832716283019655932542976 == 24089931488125272800751337097662493012988736105873408) by (nonlinear_arith);
        assert(16484 * 1461501637330902918203684832716283019655932542976 == 24091392989762603703669540782495209296008392038416384) by (nonlinear_arith);
    }
    assert(pow_nat(17, 41) == 280805607755268602048174614102036928492604365174417);
    assert(pow_nat(16, 41) == 23384026197294446691258957323460528314494920687616);
    assert(spec_level_bounds()[41 - 1] == 17613);
    assert(bound_ok(41)) by {
        assert(17613 * 23384026197294446691258957323460528314494920687616 == 411862853412947089573144015338110285203199038070980608) by (nonlinear_arith);
        assert(17614 * 23384026197294446691258957323460528314494920687616 == 411886237439144384019835274295433745731513532991668224) by (nonlinear_arith);
    }
    assert(pow_nat(17, 42) == 4773695331839566234818968439734627784374274207965089);
    assert(pow_nat(16, 42) == 374144419156711147060143317175368453031918731001856);
    assert(spec_level_bounds()[42 - 1] == 18814);
    assert(bound_ok(42)) by {
        assert(18814 * 374144419156711147060143317175368453031918731001856 == 7039153102014363520789536369337382075342519005068918784) by (nonlinear_arith);
        assert(18815 * 374144419156711147060143317175368453031918731001856 == 7039527246433520231936596512654557443795550923799920640) by (nonlinear_arith);
    }
    assert(pow_nat(17, 43) == 81152820641272625991922463475488672334362661535406513);
    assert(pow_nat(16, 43) == 5986310706507378352962293074805895248510699696029696);
    assert(spec_level_bounds()[43 - 1] == 20090);
    assert(bound_ok(43)) by {
        assert(20090 * 5986310706507378352962293074805895248510699696029696 == 120264982093733231111012467872850435542579956893236592640) by (nonlinear_arith);
        assert(20091 * 5986310706507378352962293074805895248510699696029696 == 120270968404439738489365430165925241437828467592932622336) by (nonlinear_arith);
    }
    assert(pow_nat(17, 44) == 1379597950901634641862681879083307429684165246101910721);
    assert(pow_nat(16, 44) == 95780971304118053647396689196894323976171195136475136);
    assert(spec_level_bounds()[44 - 1] == 21445);
    assert(bound_ok(44)) by {
        assert(21445 * 95780971304118053647396689196894323976171195136475136 == 2054022929616811660468421999827398777668991279701709291520) by (nonlinear_arith);
        assert(21446 * 95780971304118053647396689196894323976171195136475136 == 2054118710588115778522069396516595671992967450896845766656) by (nonlinear_arith);
    }
    assert(pow_nat(17, 45) == 23453165165327788911665591944416226304630809183732482257);
    assert(pow_nat(16, 45) == 1532495540865888858358347027150309183618739122183602176);
    assert(spec_level_bounds()[45 - 1] == 22886);
    assert(bound_ok(45)) by {
        assert(22886 * 1532495540865888858358347027150309183618739122183602176 == 35072692948256732412389130063361975976298463550293919399936) by (nonlinear_arith);
        assert(22887 * 1532495540865888858358347027150309183618739122183602176 == 35074225443797598301247488410389126285482082289416103002112) by (nonlinear_arith);
    }
    assert(pow_nat(17, 46) == 398703807810572411498315063055075847178723756123452198369);
    assert(pow_nat(16, 46) == 24519928653854221733733552434404946937899825954937634816);
    assert(spec_level_bounds()[46 - 1] == 24416);
    assert(bound_ok(46)) by {
        assert(24416 * 24519928653854221733733552434404946937899825954937634816 == 598678578012504677850838416238431184435762150515757291667456) by (nonlinear_arith);
        assert(24417 * 24519928653854221733733552434404946937899825954937634816 == 598703097941158532072572149790865589382700050341712229302272) by (nonlinear_arith);
    }
    assert(pow_nat(17, 47) == 6777964732779730995471356071936289402038303854098687372273);
    assert(pow_nat(16, 47) == 392318858461667547739736838950479151006397215279002157056);
    assert(spec_level_bounds()[47 - 1] == 26042);
    assert(bound_ok(47)) by {
        assert(26042 * 392318858461667547739736838950479151006397215279002157056 == 10216767712058746278238226759948378050508596280295774174052352) by (nonlinear_arith);
        assert(26043 * 392318858461667547739736838950479151006397215279002157056 == 10217160030917207945785966496787328529659602677511053176209408) by (nonlinear_arith);
    }
    assert(pow_nat(17, 48) == 115225400457255426923013053222916919834651165519677685328641);
    assert(pow_nat(16, 48) == 6277101735386680763835789423207666416102355444464034512896);
    assert(spec_level_bounds()[48 - 1] == 27770);
    assert(bound_ok(48)) by {
        assert(27770 * 6277101735386680763835789423207666416102355444464034512896 == 174315115191688124811719872282476896375162410692766238423121920) by (nonlinear_arith);
        assert(27771 * 6277101735386680763835789423207666416102355444464034512896 == 174321392293423511492483708071900104041578513048210702457634816) by (nonlinear_arith);
    }
    assert(pow_nat(17, 49) == 1958831807773342257691221904789587637189069813834520650586897);
    assert(pow_nat(16, 49) == 100433627766186892221372630771322662657637687111424552206336);
    assert(spec_level_bounds()[49 - 1] == 29605);
    assert(bound_ok(49)) by {
        assert(29605 * 100433627766186892221372630771322662657637687111424552206336 == 2973337550017962944213736733985007427979363726933723868068577280) by (nonlinear_arith);
        assert(29606 * 100433627766186892221372630771322662657637687111424552206336 == 2973437983645729131105958106615778750642021364620835292620783616) by (nonlinear_arith);
    }
    assert(pow_nat(17, 50) == 33300140732146818380750772381422989832214186835186851059977249);
    assert(pow_nat(16, 50) == 1606938044258990275541962092341162602522202993782792835301376);
    assert(spec_level_bounds()[50 - 1] == 31556);
    assert(bound_ok(50)) by {
        assert(31556 * 1606938044258990275541962092341162602522202993782792835301376 == 50708536924636697135002155785917727085190637671809810710770221056) by (nonlinear_arith);
        assert(31557 * 1606938044258990275541962092341162602522202993782792835301376 == 50710143862680956125277697748010068247793159874803593503605522432) by (nonlinear_arith);
    }
    assert(pow_nat(17, 51) == 566102392446495912472763130484190827147641176198176468019613233);
    assert(pow_nat(16, 51) == 25711008708143844408671393477458601640355247900524685364822016);
    assert(spec_level_bounds()[51 - 1] == 33628);
    assert(bound_ok(51)) by {
        assert(33628 * 25711008708143844408671393477458601640355247900524685364822016 == 864609800837461199774801619859977855961866276398844119448234754048) by (nonlinear_arith);
        assert(33629 * 25711008708143844408671393477458601640355247900524685364822016 == 864635511846169343619210291253455314563506631646744644133599576064) by (nonlinear_arith);
    }
    assert(pow_nat(17, 52) == 9623740671590430512036973218231244061509899995368999956333424961);
    assert(pow_nat(16, 52) == 411376139330301510538742295639337626245683966408394965837152256);
    assert(spec_level_bounds()[52 - 1] == 35830);
    assert(bound_ok(52)) by {
        assert(35830 * 411376139330301510538742295639337626245683966408394965837152256 == 14739607072204703122603136452757467148382856516412791625945165332480) by (nonlinear_arith);
        assert(35831 * 411376139330301510538742295639337626245683966408394965837152256 == 14740018448344033424113675195053106486009102200379200020911002484736) by (nonlinear_arith);
    }
    assert(pow_nat(17, 53) == 163603591417037318704628544709931149045668299921272999257668224337);
    assert(pow_nat(16, 53) == 6582018229284824168619876730229402019930943462534319453394436096);
    assert(spec_level_bounds()[53 - 1] == 38169);
    assert(bound_ok(53)) by {
        assert(38169 * 6582018229284824168619876730229402019930943462534319453394436096 == 251229053793572453692052074916126045698744181021472439216612231348224) by (nonlinear_arith);
        assert(38170 * 6582018229284824168619876730229402019930943462534319453394436096 == 251235635811801738516220694792856275100764111964934973536065625784320) by (nonlinear_arith);
    }
    assert(pow_nat(17, 54) == 2781261054089634417978685260068829533776361098661640987380359813729);
    assert(pow_nat(16, 54) == 105312291668557186697918027683670432318895095400549111254310977536);
    assert(spec_level_bounds()[54 - 1] == 40655);
    assert(bound_ok(54)) by {
        assert(40655 * 105312291668557186697918027683670432318895095400549111254310977536 == 4281471217785192425203857415479621425924680103509324118044012791726080) by (nonlinear_arith);
        assert(40656 * 105312291668557186697918027683670432318895095400549111254310977536 == 4281576530076860982390555333507305096356998998604724667155267102703616) by (nonlinear_arith);
    }
    assert(pow_nat(17, 55) == 47281437919523785105637649421170102074198138677247896785466116833393);
    assert(pow_nat(16, 55) == 1684996666696914987166688442938726917102321526408785780068975640576);
    assert(spec_level_bounds()[55 - 1] == 43296);
    assert(bound_ok(55)) by {
        assert(43296 * 1684996666696914987166688442938726917102321526408785780068975640576 == 72953615681309631284368942825475120602862112807394789133866369334378496) by (nonlinear_arith);
        assert(43297 * 1684996666696914987166688442938726917102321526408785780068975640576 == 72955300677976328199356109513918059329779215128921197919646438310019072) by (nonlinear_arith);
    }
    assert(pow_nat(17, 56) == 803784444631904346795840040159891735261368357513214245352923986167681);
    assert(pow_nat(16, 56) == 26959946667150639794667015087019630673637144422540572481103610249216);
    assert(spec_level_bounds()[56 - 1] == 46102);
    assert(bound_ok(56)) by {
        assert(46102 * 26959946667150639794667015087019630673637144422540572481103610249216 == 1242907461248978795813738729541779013316019632167965472523838639709356032) by (nonlinear_arith);
        assert(46103 * 26959946667150639794667015087019630673637144422540572481103610249216 == 1242934421195645946453533396556866032946693269312388013096319743319605248) by (nonlinear_arith);
    }
    assert(pow_nat(17, 57) == 13664335558742373895529280682718159499443262077724642170999707764850577);
    assert(pow_nat(16, 57) == 431359146674410236714672241392314090778194310760649159697657763987456);
    assert(spec_level_bounds()[57 - 1] == 49083);
    assert(bound_ok(57)) by {
        assert(49083 * 431359146674410236714672241392314090778194310760649159697657763987456 == 21172400996220077648666257624258952517666111355064942705440136029796302848) by (nonlinear_arith);
        assert(49084 * 431359146674410236714672241392314090778194310760649159697657763987456 == 21172832355366752058902972296500344831756889549375703354599833687560290304) by (nonlinear_arith);
    }
    assert(pow_nat(17, 58) == 232293704498620356223997771606208711490535455321318916906995032002459809);
    assert(pow_nat(16, 58) == 6901746346790563787434755862277025452451108972170386555162524223799296);
    assert(spec_level_bounds()[58 - 1] == 52251);
    assert(bound_ok(58)) by {
        assert(52251 * 6901746346790563787434755862277025452451108972170386555162524223799296 == 360623148366153748457253428559836856916022894904874867893797053217737015296) by (nonlinear_arith);
        assert(52252 * 6901746346790563787434755862277025452451108972170386555162524223799296 == 360630050112500539021040863315699133941475346013847038280352215741960814592) by (nonlinear_arith);
    }
    assert(pow_nat(17, 59) == 3948992976476546055807962117305548095339102740462421587418915544041816753);
    assert(pow_nat(16, 59) == 110427941548649020598956093796432407239217743554726184882600387580788736);
    assert(spec_level_bounds()[59 - 1] == 55617);
    assert(bound_ok(59)) by {
        assert(55617 * 110427941548649020598956093796432407239217743554726184882600387580788736 == 6141670825111212578652141068676181193423573243283206224615585756080727130112) by (nonlinear_arith);
        assert(55618 * 110427941548649020598956093796432407239217743554726184882600387580788736 == 6141781253052761227672740024769977625830812461026760950800468356468307918848) by (nonlinear_arith);
    }
    assert(pow_nat(17, 60) == 67132880600101282948735355994194317620764746587861166986121564248710884801);
    assert(pow_nat(16, 60) == 1766847064778384329583297500742918515827483896875618958121606201292619776);
    assert(spec_level_bounds()[60 - 1] == 59193);
    assert(bound_ok(60)) by {
        assert(59193 * 1766847064778384329583297500742918515827483896875618958121606201292619776 == 104584978305426903621024128961475575707376254307758512988092235873114042400768) by (nonlinear_arith);
        assert(59194 * 1766847064778384329583297500742918515827483896875618958121606201292619776 == 104586745152491682005353712258976318625892081791655388607050357479315335020544) by (nonlinear_arith);
    }
}

/// For `l` in `1..=60`, the table decides the exact rational comparison.
proof fn lemma_bound_decides(l: nat, score: nat)
    requires
        1 <= l <= 60,
    ensures
        level_exceeds(l, score) <==> score <= spec_level_bounds()[l as int - 1],
{
    lemma_bounds_ok();
    assert(bound_ok(l as int));
    let b = spec_level_bounds()[l as int - 1] as nat;
    let p16 = pow_nat(16, l);
    let d = 1600 * (pow_nat(17, l) - pow_nat(16, l));
    assert(p16 >= 1) by {
        lemma_pow_pos(16, l);
    }
    if score <= b {
        lemma_mul_inequality(score as int, b as int, p16 as int);
        assert(score * p16 <= b * p16);
    }
    if score > b {
        lemma_mul_inequality(b as int + 1, score as int, p16 as int);
        assert((b + 1) * p16 <= score * p16);
    }
}

proof fn lemma_pow_pos(base: nat, e: nat)
    requires
        base >= 1,
    ensures
        pow_nat(base, e) >= 1,
    decreases e,
{
    if e > 0 {
        lemma_pow_pos(base, (e - 1) as nat);
        lemma_mul_inequality(1, base as int, pow_nat(base, (e - 1) as nat) as int);
    }
}

/// The requirement table, in thousandths of a point.
fn level_bounds() -> (r: Vec<u64>)
    ensures
        r@ == spec_level_bounds(),
{
    let r: Vec<u64> = vec![
        99u64, 206, 319, 439, 566, 701, 845, 998, 1161, 1333, 1517, 1711, 1918, 2138, 2372,
        2620, 2884, 3164, 3462, 3778, 4115, 4472, 4851, 5255, 5683, 6138, 6622, 7136, 7682,
        8262, 8878, 9533, 10229, 10969, 11754, 12589, 13476, 14418, 15419, 16483, 17613,
        18814, 20090, 21445, 22886, 24416, 26042, 27770, 29605, 31556, 33628, 35830, 38169,
        40655, 43296, 46102, 49083, 52251, 55617, 59193,
    ];
    proof {
        assert(r@ =~= spec_level_bounds());
    }
    r
}

/// Level of a score given in thousandths of a point.
pub fn points_to_level(score: u32) -> (level: u32)
    ensures
        level == spec_points_to_level(score as nat),
        level <= 60,
{
    let bounds = level_bounds();
    let mut l: usize = 1;
    while l <= 60
        invariant
            1 <= l <= 61,
            bounds@ == spec_level_bounds(),
            level_from(score as nat, 1) == level_from(score as nat, l as nat),
        decreases 61 - l,
    {
        if (score as u64) <= bounds[l - 1] {
            proof {
                lemma_bound_decides(l as nat, score as nat);
                lemma_level_le(score as nat, l as nat);
            }
            return (l - 1) as u32;
        }
        proof {
            lemma_bound_decides(l as nat, score as nat);
        }
        l += 1;
    }
    proof {
        lemma_level_le(score as nat, 1);
    }
    60
}

proof fn lemma_level_le(score: nat, l: nat)
    requires
        1 <= l <= 61,
    ensures
        level_from(score, l) <= 60,
    decreases 61 - l,
{
    if l <= 60 && !level_exceeds(l, score) {
        lemma_level_le(score, l + 1);
    }
}

proof fn lemma_level_ge(score: nat, l: nat)
    requires
        1 <= l <= 61,
    ensures
        level_from(score, l) >= l - 1,
    decreases 61 - l,
{
    if l <= 60 && !level_exceeds(l, score) {
        lemma_level_ge(score, l + 1);
    }
}

proof fn lemma_level_from_monotone(s1: nat, s2: nat, l: nat)
    requires
        s1 <= s2,
        1 <= l <= 61,
    ensures
        level_from(s1, l) <= level_from(s2, l),
    decreases 61 - l,
{
    if l <= 60 {
        if level_exceeds(l, s2) {
            let p16 = pow_nat(16, l);
            lemma_mul_inequality(s1 as int, s2 as int, p16 as int);
            assert(level_exceeds(l, s1));
        } else if level_exceeds(l, s1) {
            lemma_level_ge(s2, l + 1);
        } else {
            lemma_level_from_monotone(s1, s2, l + 1);
        }
    }
}

/// The level is monotone non-decreasing in the score and bounded by 60.
pub proof fn lemma_level_monotone_bounded(s1: nat, s2: nat)
    requires
        s1 <= s2,
    ensures
        spec_points_to_level(s1) <= spec_points_to_level(s2),
        spec_points_to_level(s2) <= 60,
{
    lemma_level_from_monotone(s1, s2, 1);
    lemma_level_le(s2, 1);
}

proof fn lemma_bounds_below_cap()
    ensures
        forall|l: int| 1 <= l <= 60 ==> #[trigger] spec_level_bounds()[l - 1] <= 59193,
{
    assert(spec_level_bounds()[1 - 1] == 99);
    assert(spec_level_bounds()[2 - 1] == 206);
    assert(spec_level_bounds()[3 - 1] == 319);
    assert(spec_level_bounds()[4 - 1] == 439);
    assert(spec_level_bounds()[5 - 1] == 566);
    assert(spec_level_bounds()[6 - 1] == 701);
    assert(spec_level_bounds()[7 - 1] == 845);
    assert(spec_level_bounds()[8 - 1] == 998);
    assert(spec_level_bounds()[9 - 1] == 1161);
    assert(spec_level_bounds()[10 - 1] == 1333);
    assert(spec_level_bounds()[11 - 1] == 1517);
    assert(spec_level_bounds()[12 - 1] == 1711);
    assert(spec_level_bounds()[13 - 1] == 1918);
    assert(spec_level_bounds()[14 - 1] == 2138);
    assert(spec_level_bounds()[15 - 1] == 2372);
    assert(spec_level_bounds()[16 - 1] == 2620);
    assert(spec_level_bounds()[17 - 1] == 2884);
    assert(spec_level_bounds()[18 - 1] == 3164);
    assert(spec_level_bounds()[19 - 1] == 3462);
    assert(spec_level_bounds()[20 - 1] == 3778);
    assert(spec_level_bounds()[21 - 1] == 4115);
    assert(spec_level_bounds()[22 - 1] == 4472);
    assert(spec_level_bounds()[23 - 1] == 4851);
    assert(spec_level_bounds()[24 - 1] == 5255);
    assert(spec_level_bounds()[25 - 1] == 5683);
    assert(spec_level_bounds()[26 - 1] == 6138);
    assert(spec_level_bounds()[27 - 1] == 6622);
    assert(spec_level_bounds()[28 - 1] == 7136);
    assert(spec_level_bounds()[29 - 1] == 7682);
    assert(spec_level_bounds()[30 - 1] == 8262);
    assert(spec_level_bounds()[31 - 1] == 8878);
    assert(spec_level_bounds()[32 - 1] == 9533);
    assert(spec_level_bounds()[33 - 1] == 10229);
    assert(spec_level_bounds()[34 - 1] == 10969);
    assert(spec_level_bounds()[35 - 1] == 11754);
    assert(spec_level_bounds()[36 - 1] == 12589);
    assert(spec_level_bounds()[37 - 1] == 13476);
    assert(spec_level_bounds()[38 - 1] == 14418);
    assert(spec_level_bounds()[39 - 1] == 15419);
    assert(spec_level_bounds()[40 - 1] == 16483);
    assert(spec_level_bounds()[41 - 1] == 17613);
    assert(spec_level_bounds()[42 - 1] == 18814);
    assert(spec_level_bounds()[43 - 1] == 20090);
    assert(spec_level_bounds()[44 - 1] == 21445);
    assert(spec_level_bounds()[45 - 1] == 22886);
    assert(spec_level_bounds()[46 - 1] == 24416);
    assert(spec_level_bounds()[47 - 1] == 26042);
    assert(spec_level_bounds()[48 - 1] == 27770);
    assert(spec_level_bounds()[49 - 1] == 29605);
    assert(spec_level_bounds()[50 - 1] == 31556);
    assert(spec_level_bounds()[51 - 1] == 33628);
    assert(spec_level_bounds()[52 - 1] == 35830);
    assert(spec_level_bounds()[53 - 1] == 38169);
    assert(spec_level_bounds()[54 - 1] == 40655);
    assert(spec_level_bounds()[55 - 1] == 43296);
    assert(spec_level_bounds()[56 - 1] == 46102);
    assert(spec_level_bounds()[57 - 1] == 49083);
    assert(spec_level_bounds()[58 - 1] == 52251);
    assert(spec_level_bounds()[59 - 1] == 55617);
    assert(spec_level_bounds()[60 - 1] == 59193);
}

proof fn lemma_level_from_cap(s: nat, l: nat)
    requires
        1 <= l <= 61,
        forall|l2: nat| 1 <= l2 <= 60 ==> !#[trigger] level_exceeds(l2, s),
    ensures
        level_from(s, l) == 60,
    decreases 61 - l,
{
    if l <= 60 {
        assert(!level_exceeds(l, s));
        lemma_level_from_cap(s, l + 1);
    }
}

/// Every score at or past the last level requirement sits at the cap of
/// 60: levels saturate.
pub proof fn lemma_level_saturates(s: nat)
    requires
        s >= 59194,
    ensures
        spec_points_to_level(s) == 60,
{
    lemma_bounds_below_cap();
    assert forall|l2: nat| 1 <= l2 <= 60 implies !#[trigger] level_exceeds(l2, s) by {
        lemma_bound_decides(l2, s);
        assert(spec_level_bounds()[l2 as int - 1] <= 59193);
    }
    lemma_level_from_cap(s, 1);
}

} // verus!
