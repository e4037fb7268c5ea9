//! Fractional powers of two in single precision.

use vstd::prelude::*;

verus! {

/// `2^(-r / 256)` for `r` below 256, in single precision and units of `2^-24`.
pub const ROOTS: [u32; 256] = [
    16777216, 16731851, 16686609, 16641490, 16596492, 16551616, 16506861, 16462228,
    16417715, 16373322, 16329050, 16284897, 16240863, 16196949, 16153153, 16109476,
    16065917, 16022476, 15979152, 15935945, 15892855, 15849882, 15807025, 15764283,
    15721658, 15679147, 15636752, 15594471, 15552304, 15510252, 15468313, 15426487,
    15384775, 15343175, 15301688, 15260313, 15219050, 15177899, 15136859, 15095929,
    15055111, 15014403, 14973805, 14933316, 14892937, 14852668, 14812507, 14772455,
    14732511, 14692675, 14652947, 14613326, 14573813, 14534406, 14495106, 14455912,
    14416824, 14377841, 14338964, 14300193, 14261526, 14222963, 14184505, 14146151,
    14107901, 14069754, 14031710, 13993769, 13955931, 13918195, 13880561, 13843028,
    13805598, 13768268, 13731039, 13693911, 13656884, 13619956, 13583129, 13546401,
    13509772, 13473242, 13436812, 13400479, 13364245, 13328109, 13292070, 13256129,
    13220286, 13184539, 13148888, 13113335, 13077877, 13042515, 13007249, 12972078,
    12937002, 12902021, 12867135, 12832343, 12797645, 12763041, 12728530, 12694113,
    12659789, 12625557, 12591419, 12557372, 12523418, 12489555, 12455784, 12422104,
    12388516, 12355018, 12321610, 12288294, 12255067, 12221930, 12188882, 12155924,
    12123055, 12090275, 12057584, 12024981, 11992466, 11960039, 11927700, 11895448,
    11863283, 11831206, 11799215, 11767310, 11735492, 11703760, 11672114, 11640553,
    11609078, 11577687, 11546382, 11515161, 11484025, 11452973, 11422004, 11391120,
    11360319, 11329601, 11298967, 11268415, 11237946, 11207559, 11177254, 11147032,
    11116891, 11086831, 11056853, 11026956, 10997140, 10967404, 10937749, 10908174,
    10878679, 10849263, 10819928, 10790671, 10761494, 10732395, 10703375, 10674434,
    10645571, 10616786, 10588079, 10559449, 10530897, 10502422, 10474024, 10445703,
    10417458, 10389290, 10361198, 10333182, 10305242, 10277377, 10249587, 10221873,
    10194234, 10166669, 10139179, 10111763, 10084422, 10057154, 10029960, 10002839,
    9975792, 9948818, 9921917, 9895089, 9868333, 9841650, 9815039, 9788499,
    9762032, 9735636, 9709311, 9683058, 9656875, 9630764, 9604722, 9578752,
    9552851, 9527021, 9501261, 9475570, 9449948, 9424396, 9398913, 9373499,
    9348154, 9322877, 9297668, 9272528, 9247455, 9222451, 9197514, 9172644,
    9147842, 9123107, 9098438, 9073837, 9049301, 9024833, 9000430, 8976093,
    8951823, 8927617, 8903478, 8879403, 8855394, 8831449, 8807569, 8783754,
    8760003, 8736317, 8712694, 8689136, 8665641, 8642209, 8618841, 8595536,
    8572295, 8549116, 8525999, 8502945, 8479954, 8457025, 8434157, 8411352,
];

/// The powers lie between a half and one.
pub proof fn lemma_roots(r: int)
    requires
        0 <= r < 256,
    ensures
        0x80_0000 < ROOTS@[r] <= 0x100_0000,
        r == 0 ==> ROOTS@[r] == 0x100_0000,
        r > 0 ==> ROOTS@[r] <= 16731851,
{
}

} // verus!
